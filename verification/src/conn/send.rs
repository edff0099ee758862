//! The send queue: what a peer does with the payloads it is given.
//!
//! A payload becomes one frame or, if it does not fit a datagram, several
//! fragments, and waits in the queue of its priority. A flush packs the
//! waiting frames into datagrams, numbers them and remembers each in the
//! recovery queue until it is acknowledged. A datagram that is reported
//! missing, or that stays unacknowledged for too long, is sent again under
//! a new sequence number.

use crate::conn::framing::count_group;
use crate::conn::framing::framed;
use crate::conn::framing::lemma_fitting_small;
use crate::conn::framing::lemma_packed_keeps_order;
use crate::conn::framing::packed;
use crate::conn::framing::ungrouped;
use crate::conn::framing::frames_for;
use crate::conn::framing::rto;
use crate::conn::framing::rto_of;
use crate::conn::framing::smooth;
use crate::conn::framing::smoothed;
use crate::conn::framing::DATAGRAM_HEADER;
use crate::conn::queue::RecoveryQueue;
use crate::conn::session::since;
use crate::conn::window::wrap;
use crate::conn::window::MODULUS;
use crate::protocol::datagram::all_wf;
use crate::protocol::datagram::frame_views;
use crate::protocol::datagram::Datagram;
use crate::protocol::datagram::DatagramView;
use crate::protocol::datagram::MAX_FRAMES;
use crate::protocol::frame::Frame;
use crate::protocol::frame::FrameView;
use crate::protocol::frame::Reliability;
use crate::protocol::frame::CHANNELS;
use crate::protocol::frame::INDEX_LIMIT;
use crate::protocol::offline::MIN_MTU;
use crate::protocol::offline::UDP_HEADER_SIZE;
use vstd::prelude::*;

verus! {

/// The number of times a datagram is sent again before the session is
/// given up, unless told otherwise.
pub const DEFAULT_MAX_TRIES: u16 = 5;

/// How urgent a payload is. A flush takes immediate payloads first, then
/// normal ones, then low ones.
#[derive(Debug, Clone, Copy, PartialEq, Eq, Structural)]
pub enum Priority {
    Immediate,
    Normal,
    Low,
}

/// Why a payload was not queued.
#[derive(Debug, Clone, Copy, PartialEq, Eq, Structural)]
pub enum SendError {
    /// The channel is not below 32.
    BadChannel,
    /// The payload is too large to be counted in fragments.
    TooLarge,
    /// The channel has used up its ordering indices.
    Exhausted,
}

/// What came of sending a datagram again.
#[derive(Debug, Clone, PartialEq, Eq)]
pub enum Resend {
    /// The datagram is to be sent again, as these bytes.
    Again(Vec<u8>),
    /// The datagram carried nothing reliable: it is forgotten, and nothing
    /// is sent.
    Nothing,
    /// The datagram is no longer remembered: what it carried is lost.
    Missing,
    /// The datagram has been sent as often as allowed: the session has
    /// failed.
    GaveUp,
}

/// A datagram that was sent and is not acknowledged yet.
#[derive(Debug)]
pub struct Sent {
    /// The reliable frames it carried: what is sent again if it is lost.
    pub frames: Vec<Frame>,
    /// When its frames were first sent, in milliseconds.
    pub first_sent: u64,
    /// When it was sent, in milliseconds.
    pub sent_at: u64,
    /// How many times its frames had been sent before.
    pub tries: u16,
}

/// A sent datagram as a mathematical value.
pub struct SentView {
    pub frames: Seq<FrameView>,
    pub first_sent: u64,
    pub sent_at: u64,
    pub tries: u16,
}

impl View for Sent {
    type V = SentView;

    open spec fn view(&self) -> SentView {
        SentView {
            frames: frame_views(self.frames@),
            first_sent: self.first_sent,
            sent_at: self.sent_at,
            tries: self.tries,
        }
    }
}

/// The sending side of a session.
#[derive(Debug)]
pub struct SendQueue {
    /// The negotiated MTU.
    mtu: u16,
    /// How many times a datagram is sent again before the session is given
    /// up.
    max_tries: u16,
    /// The smoothed round-trip time, in milliseconds.
    srtt: u64,
    /// The reliable index of the next reliable frame.
    reliable_index: u32,
    /// The ordering index of the next ordered payload, per channel.
    order_index: Vec<u32>,
    /// The sequencing index of the next sequenced payload, per channel.
    sequence_index: Vec<u32>,
    /// The compound id of the next payload that is split.
    compound_id: u16,
    /// The frames waiting to be sent, by priority.
    immediate: Vec<Frame>,
    normal: Vec<Frame>,
    low: Vec<Frame>,
    /// The datagrams sent and not acknowledged, by sequence count.
    recovery: RecoveryQueue<Sent>,
}

impl SendQueue {
    /// The negotiated MTU.
    pub closed spec fn mtu(&self) -> u16 {
        self.mtu
    }

    /// How many times a datagram is sent again before the session is given
    /// up.
    pub closed spec fn max_tries(&self) -> u16 {
        self.max_tries
    }

    /// The smoothed round-trip time, in milliseconds.
    pub closed spec fn srtt(&self) -> u64 {
        self.srtt
    }

    /// The reliable index of the next reliable frame.
    pub closed spec fn reliable_index(&self) -> u32 {
        self.reliable_index
    }

    /// The ordering index of the next ordered payload, per channel.
    pub closed spec fn order_indices(&self) -> Seq<u32> {
        self.order_index@
    }

    /// The sequencing index of the next sequenced payload, per channel.
    pub closed spec fn sequence_indices(&self) -> Seq<u32> {
        self.sequence_index@
    }

    /// The compound id of the next payload that is split.
    pub closed spec fn compound_id(&self) -> u16 {
        self.compound_id
    }

    /// The frames of priority `priority` that wait to be sent.
    pub closed spec fn queued(&self, priority: Priority) -> Seq<FrameView> {
        match priority {
            Priority::Immediate => frame_views(self.immediate@),
            Priority::Normal => frame_views(self.normal@),
            Priority::Low => frame_views(self.low@),
        }
    }

    /// The datagrams sent and not acknowledged, with the count each was
    /// sent under, oldest first.
    pub closed spec fn records(&self) -> Seq<(u32, SentView)> {
        Seq::new(self.recovery@.len(), |i: int| (self.recovery@[i].0, self.recovery@[i].1@))
    }

    /// The count the next datagram is sent under. Its sequence number is
    /// the count wrapped into 24 bits.
    pub closed spec fn next_count(&self) -> u32 {
        self.recovery.next_index()
    }

    /// How many unacknowledged datagrams are remembered at most.
    pub closed spec fn window(&self) -> u32 {
        self.recovery.spec_capacity()
    }

    /// The recovery queue is in order.
    pub closed spec fn recovery_wf(&self) -> bool {
        self.recovery.wf()
    }

    /// Whether the frames of every record are well formed and few enough
    /// for one datagram.
    pub open spec fn records_wf(records: Seq<(u32, SentView)>) -> bool {
        forall|i: int|
            0 <= i < records.len() ==> all_wf((#[trigger] records[i]).1.frames)
                && records[i].1.frames.len() <= MAX_FRAMES
    }

    /// The MTU is one a session can have, every index is in range, and
    /// every frame held is well formed.
    pub open spec fn wf(&self) -> bool {
        &&& self.mtu() >= MIN_MTU
        &&& self.reliable_index() < INDEX_LIMIT
        &&& self.order_indices().len() == CHANNELS
        &&& self.sequence_indices().len() == CHANNELS
        &&& forall|c: int| 0 <= c < CHANNELS ==> #[trigger] self.order_indices()[c] <= INDEX_LIMIT
        &&& forall|c: int| 0 <= c < CHANNELS ==> #[trigger] self.sequence_indices()[c] <= INDEX_LIMIT
        &&& all_wf(self.queued(Priority::Immediate))
        &&& all_wf(self.queued(Priority::Normal))
        &&& all_wf(self.queued(Priority::Low))
        &&& self.recovery_wf()
        &&& Self::records_wf(self.records())
    }

    /// The ordering or sequencing index that a payload of mode `mode` on
    /// channel `channel` is given.
    pub open spec fn channel_index(&self, mode: Reliability, channel: u8) -> u32 {
        if mode.is_ordered() {
            self.order_indices()[channel as int]
        } else if mode.is_sequenced() {
            self.sequence_indices()[channel as int]
        } else {
            0
        }
    }

    /// Whether a payload of `length` bytes with mode `mode` on channel
    /// `channel` can be queued, and why not.
    pub open spec fn admits(&self, length: nat, mode: Reliability, channel: u8) -> Result<
        (),
        SendError,
    > {
        if channel >= CHANNELS {
            Err(SendError::BadChannel)
        } else if length >= u32::MAX {
            Err(SendError::TooLarge)
        } else if self.channel_index(mode, channel) >= INDEX_LIMIT {
            Err(SendError::Exhausted)
        } else {
            Ok(())
        }
    }

    /// The frames that a payload becomes when it is queued now.
    pub open spec fn frames_of(&self, payload: Seq<u8>, mode: Reliability, channel: u8) -> Seq<
        FrameView,
    > {
        framed(
            payload,
            mode,
            channel,
            self.reliable_index(),
            self.channel_index(mode, channel),
            self.compound_id(),
            self.mtu(),
        )
    }

    /// A queue for a session with the MTU `mtu` that gives up after
    /// `max_tries` retransmissions and remembers up to `window` datagrams.
    pub fn new(mtu: u16, max_tries: u16, window: u32) -> (queue: SendQueue)
        requires
            mtu >= MIN_MTU,
        ensures
            queue.wf(),
            queue.mtu() == mtu,
            queue.max_tries() == max_tries,
            queue.window() == window,
            queue.srtt() == 0,
            queue.reliable_index() == 0,
            queue.compound_id() == 0,
            queue.next_count() == 0,
            queue.order_indices() == Seq::new(CHANNELS as nat, |c: int| 0u32),
            queue.sequence_indices() == Seq::new(CHANNELS as nat, |c: int| 0u32),
            queue.queued(Priority::Immediate) == Seq::<FrameView>::empty(),
            queue.queued(Priority::Normal) == Seq::<FrameView>::empty(),
            queue.queued(Priority::Low) == Seq::<FrameView>::empty(),
            queue.records() == Seq::<(u32, SentView)>::empty(),
    {
        let mut order_index: Vec<u32> = Vec::new();
        let mut sequence_index: Vec<u32> = Vec::new();
        let mut c: u8 = 0;
        while c < CHANNELS
            invariant
                c <= CHANNELS,
                order_index@ == Seq::new(c as nat, |k: int| 0u32),
                sequence_index@ == Seq::new(c as nat, |k: int| 0u32),
            decreases CHANNELS - c,
        {
            order_index.push(0);
            sequence_index.push(0);
            c += 1;
            assert(order_index@ =~= Seq::new(c as nat, |k: int| 0u32));
            assert(sequence_index@ =~= Seq::new(c as nat, |k: int| 0u32));
        }
        let queue = SendQueue {
            mtu,
            max_tries,
            srtt: 0,
            reliable_index: 0,
            order_index,
            sequence_index,
            compound_id: 0,
            immediate: Vec::new(),
            normal: Vec::new(),
            low: Vec::new(),
            recovery: RecoveryQueue::with_capacity(window),
        };
        assert(queue.queued(Priority::Immediate) =~= Seq::<FrameView>::empty());
        assert(queue.queued(Priority::Normal) =~= Seq::<FrameView>::empty());
        assert(queue.queued(Priority::Low) =~= Seq::<FrameView>::empty());
        assert(queue.records() =~= Seq::<(u32, SentView)>::empty());
        queue
    }

    /// Queues a payload.
    ///
    /// The payload is given the next reliable, ordering or sequencing index
    /// that its mode calls for, split if it does not fit a datagram, and
    /// its frames join the queue of its priority.
    pub fn insert(
        &mut self,
        payload: &[u8],
        mode: Reliability,
        channel: u8,
        priority: Priority,
    ) -> (res: Result<(), SendError>)
        requires
            old(self).wf(),
        ensures
            final(self).wf(),
            res == old(self).admits(payload@.len(), mode, channel),
            res is Err ==> *final(self) == *old(self),
            res is Ok ==> {
                let frames = old(self).frames_of(payload@, mode, channel);
                &&& forall|p: Priority|
                    final(self).queued(p) == if p == priority {
                        old(self).queued(p) + frames
                    } else {
                        old(self).queued(p)
                    }
                &&& final(self).reliable_index() == if mode.is_reliable() {
                    wrap(old(self).reliable_index() + frames.len())
                } else {
                    old(self).reliable_index()
                }
                &&& final(self).order_indices() == if mode.is_ordered() {
                    old(self).order_indices().update(
                        channel as int,
                        (old(self).order_indices()[channel as int] + 1) as u32,
                    )
                } else {
                    old(self).order_indices()
                }
                &&& final(self).sequence_indices() == if mode.is_sequenced() {
                    old(self).sequence_indices().update(
                        channel as int,
                        (old(self).sequence_indices()[channel as int] + 1) as u32,
                    )
                } else {
                    old(self).sequence_indices()
                }
                &&& final(self).compound_id() == if frames.len() > 1 {
                    wrap16(old(self).compound_id() + 1)
                } else {
                    old(self).compound_id()
                }
                &&& final(self).mtu() == old(self).mtu()
                &&& final(self).max_tries() == old(self).max_tries()
                &&& final(self).srtt() == old(self).srtt()
                &&& final(self).records() == old(self).records()
                &&& final(self).next_count() == old(self).next_count()
                &&& final(self).window() == old(self).window()
            },
    {
        if channel >= CHANNELS {
            return Err(SendError::BadChannel);
        }
        if payload.len() >= u32::MAX as usize {
            return Err(SendError::TooLarge);
        }
        let index = if mode.ordered() {
            self.order_index[channel as usize]
        } else if mode.sequenced() {
            self.sequence_index[channel as usize]
        } else {
            0
        };
        if index >= INDEX_LIMIT {
            return Err(SendError::Exhausted);
        }
        let mut frames = frames_for(
            payload,
            mode,
            channel,
            self.reliable_index,
            index,
            self.compound_id,
            self.mtu,
        );
        let ghost added = frame_views(frames@);
        let count = frames.len();
        if mode.reliable() {
            self.reliable_index = ((self.reliable_index as u64 + count as u64) % (
            MODULUS as u64)) as u32;
        }
        if mode.ordered() {
            self.order_index.set(channel as usize, index + 1);
        } else if mode.sequenced() {
            self.sequence_index.set(channel as usize, index + 1);
        }
        if count > 1 {
            self.compound_id = if self.compound_id == u16::MAX {
                0
            } else {
                self.compound_id + 1
            };
        }
        match priority {
            Priority::Immediate => {
                let ghost before = frame_views(self.immediate@);
                self.immediate.append(&mut frames);
                assert(frame_views(self.immediate@) =~= before + added);
            },
            Priority::Normal => {
                let ghost before = frame_views(self.normal@);
                self.normal.append(&mut frames);
                assert(frame_views(self.normal@) =~= before + added);
            },
            Priority::Low => {
                let ghost before = frame_views(self.low@);
                self.low.append(&mut frames);
                assert(frame_views(self.low@) =~= before + added);
            },
        }
        assert(self.records() =~= old(self).records());
        Ok(())
    }

    /// The frames that wait to be sent, in the order a flush takes them.
    pub open spec fn waiting(&self) -> Seq<FrameView> {
        self.queued(Priority::Immediate) + self.queued(Priority::Normal) + self.queued(
            Priority::Low,
        )
    }

    /// The bytes of frames that a datagram can hold under the MTU.
    pub open spec fn budget(&self) -> int {
        self.mtu() - UDP_HEADER_SIZE - DATAGRAM_HEADER
    }

    /// How many more datagrams can be sent before one is acknowledged: what
    /// is left of the recovery window, and of the counts.
    pub open spec fn headroom(&self) -> int {
        let slots = self.window() - self.records().len();
        let counts = u32::MAX - self.next_count();
        if slots < counts {
            slots
        } else {
            counts
        }
    }

    /// The record of the datagram number `i` of a flush at time `now` that
    /// sends `groups` from the count `first` on.
    pub open spec fn record_of(groups: Seq<Seq<FrameView>>, first: u32, now: u64, i: int) -> (
        u32,
        SentView,
    ) {
        (
            (first + i) as u32,
            SentView {
                frames: reliable_only(groups[i]),
                first_sent: now,
                sent_at: now,
                tries: 0,
            },
        )
    }

    /// The datagram number `i` of a flush that sends `groups` from the
    /// count `first` on.
    pub open spec fn datagram_of(groups: Seq<Seq<FrameView>>, first: u32, i: int) -> DatagramView {
        DatagramView { sequence: wrap(first + i), frames: groups[i] }
    }

    /// A frame that holds nothing, to stand where one was taken from.
    fn blank() -> (frame: Frame)
        ensures
            frame@ == Self::blank_frame(),
            frame@.wf(),
    {
        let frame = Frame {
            reliability: Reliability::Unreliable,
            reliable_index: 0,
            order_index: 0,
            channel: 0,
            fragment: None,
            payload: Vec::new(),
        };
        assert(frame@.payload =~= Seq::<u8>::empty());
        frame
    }

    /// The frame that holds nothing: unreliable, whole, with every index
    /// zero and no payload.
    pub open spec fn blank_frame() -> FrameView {
        FrameView {
            reliability: Reliability::Unreliable,
            reliable_index: 0,
            order_index: 0,
            channel: 0,
            fragment: None,
            payload: Seq::empty(),
        }
    }

    /// Takes the frames at `start` and the `count - 1` after it out of
    /// `frames`, leaving the others as they are.
    fn take_frames(frames: &mut Vec<Frame>, start: usize, count: usize) -> (group: Vec<Frame>)
        requires
            start + count <= old(frames)@.len(),
        ensures
            final(frames)@.len() == old(frames)@.len(),
            frame_views(group@) == frame_views(old(frames)@).subrange(
                start as int,
                start + count,
            ),
            forall|k: int|
                0 <= k < old(frames)@.len() && !(start <= k < start + count)
                    ==> #[trigger] final(frames)@[k] == old(frames)@[k],
            forall|k: int| start <= k < start + count ==> (#[trigger] final(frames)@[k])@.wf(),
    {
        let total = frames.len();
        let mut group: Vec<Frame> = Vec::new();
        let mut j: usize = 0;
        while j < count
            invariant
                j <= count,
                start + count <= old(frames)@.len(),
                frames@.len() == old(frames)@.len(),
                frames@.len() == total,
                group@.len() == j,
                forall|k: int| 0 <= k < j ==> #[trigger] group@[k] == old(frames)@[start + k],
                forall|k: int|
                    0 <= k < frames@.len() && !(start <= k < start + j) ==> #[trigger] frames@[k]
                        == old(frames)@[k],
                forall|k: int| start <= k < start + j ==> (#[trigger] frames@[k])@.wf(),
            decreases count - j,
        {
            let mut frame = Self::blank();
            std::mem::swap(&mut frame, &mut frames[start + j]);
            group.push(frame);
            j += 1;
        }
        assert(frame_views(group@) =~= frame_views(old(frames)@).subrange(
            start as int,
            start + count,
        ));
        group
    }

    /// Packs the waiting frames into datagrams and hands back their bytes,
    /// in the order they are to be sent.
    ///
    /// Each datagram is filled until the next frame would overflow the MTU,
    /// takes the next sequence number, and is remembered with its reliable
    /// frames until it is acknowledged. When no more datagrams can be remembered, the frames
    /// that are left wait at the head of the immediate queue.
    pub fn flush(&mut self, now: u64) -> (out: Vec<Vec<u8>>)
        requires
            old(self).wf(),
        ensures
            final(self).wf(),
            ({
                let groups = packed(old(self).waiting(), old(self).budget());
                let n = out@.len() as int;
                &&& n <= groups.len()
                &&& n <= old(self).headroom()
                &&& n == groups.len() || n == old(self).headroom()
                &&& forall|i: int|
                    0 <= i < n ==> (#[trigger] out@[i])@ == Self::datagram_of(
                        groups,
                        old(self).next_count(),
                        i,
                    ).encoding()
                &&& final(self).records() == old(self).records() + Seq::new(
                    n as nat,
                    |i: int| Self::record_of(groups, old(self).next_count(), now, i),
                )
                &&& final(self).next_count() == old(self).next_count() + n
                &&& final(self).queued(Priority::Immediate) == ungrouped(groups.skip(n))
                &&& final(self).queued(Priority::Normal) == Seq::<FrameView>::empty()
                &&& final(self).queued(Priority::Low) == Seq::<FrameView>::empty()
            }),
            final(self).mtu() == old(self).mtu(),
            final(self).max_tries() == old(self).max_tries(),
            final(self).srtt() == old(self).srtt(),
            final(self).window() == old(self).window(),
            final(self).reliable_index() == old(self).reliable_index(),
            final(self).order_indices() == old(self).order_indices(),
            final(self).sequence_indices() == old(self).sequence_indices(),
            final(self).compound_id() == old(self).compound_id(),
    {
        let ghost waiting = self.waiting();
        let ghost first = self.recovery.next_index();
        let ghost before = self.records();
        let mut all: Vec<Frame> = Vec::new();
        all.append(&mut self.immediate);
        all.append(&mut self.normal);
        all.append(&mut self.low);
        assert(frame_views(all@) =~= waiting);
        let budget = (self.mtu - UDP_HEADER_SIZE - DATAGRAM_HEADER) as usize;
        let ghost groups = packed(waiting, budget as int);
        let mut out: Vec<Vec<u8>> = Vec::new();
        let mut start: usize = 0;
        proof {
            assert(waiting.skip(0) =~= waiting);
            assert(groups.skip(0) =~= groups);
            assert(self.records() =~= before + Seq::new(
                0nat,
                |i: int| Self::record_of(groups, first, now, i),
            ));
            assert(frame_views(self.immediate@) =~= Seq::<FrameView>::empty());
            assert(frame_views(self.normal@) =~= Seq::<FrameView>::empty());
            assert(frame_views(self.low@) =~= Seq::<FrameView>::empty());
        }
        while start < all.len() && self.recovery.len() < self.recovery.capacity() as usize
            && self.recovery.next() < u32::MAX
            invariant
                start <= all@.len(),
                all@.len() == waiting.len(),
                all_wf(waiting),
                forall|k: int| start <= k < all@.len() ==> (#[trigger] all@[k])@ == waiting[k],
                forall|k: int| 0 <= k < start ==> (#[trigger] all@[k])@.wf(),
                budget == self.mtu - UDP_HEADER_SIZE - DATAGRAM_HEADER,
                self.mtu >= MIN_MTU,
                groups == packed(waiting, budget as int),
                out@.len() <= groups.len(),
                groups.skip(out@.len() as int) == packed(waiting.skip(start as int), budget as int),
                self.recovery.wf(),
                self.recovery.next_index() == first + out@.len(),
                self.recovery@.len() == old(self).recovery@.len() + out@.len(),
                self.recovery.spec_capacity() == old(self).recovery.spec_capacity(),
                self.records() == before + Seq::new(
                    out@.len() as nat,
                    |i: int| Self::record_of(groups, first, now, i),
                ),
                Self::records_wf(self.records()),
                forall|i: int|
                    0 <= i < out@.len() ==> (#[trigger] out@[i])@ == Self::datagram_of(
                        groups,
                        first,
                        i,
                    ).encoding(),
                self.immediate@.len() == 0,
                self.normal@.len() == 0,
                self.low@.len() == 0,
                self.mtu == old(self).mtu,
                self.max_tries == old(self).max_tries,
                self.srtt == old(self).srtt,
                self.reliable_index == old(self).reliable_index,
                self.order_index == old(self).order_index,
                self.sequence_index == old(self).sequence_index,
                self.compound_id == old(self).compound_id,
            decreases all@.len() - start,
        {
            let ghost n = out@.len() as int;
            let ghost rest = waiting.skip(start as int);
            let ghost records = self.records();
            proof {
                assert(frame_views(all@).skip(start as int) =~= rest) by {
                    assert forall|k: int| 0 <= k < rest.len() implies frame_views(all@).skip(
                        start as int,
                    )[k] == rest[k] by {
                        assert(all@[start + k]@ == waiting[start + k]);
                    }
                }
                assert(all_wf(frame_views(all@))) by {
                    assert forall|k: int| 0 <= k < all@.len() implies (#[trigger] frame_views(
                        all@,
                    )[k]).wf() by {
                        if k >= start {
                            assert(all@[k]@ == waiting[k]);
                            assert(waiting[k].wf());
                        } else {
                            assert(all@[k]@.wf());
                        }
                    }
                }
            }
            let count = count_group(&all, start, budget);
            let group = Self::take_frames(&mut all, start, count);
            proof {
                assert(all_wf(rest)) by {
                    assert forall|k: int| 0 <= k < rest.len() implies (#[trigger] rest[k]).wf() by {
                        assert(waiting[start + k].wf());
                    }
                }
                lemma_fitting_small(rest, budget as int);
                assert(packed(rest, budget as int) == seq![rest.take(count as int)] + packed(
                    rest.skip(count as int),
                    budget as int,
                ));
                assert(groups[n] == groups.skip(n)[0]);
                assert(groups[n] == rest.take(count as int));
                assert(frame_views(group@) =~= rest.take(count as int));
                assert(groups.skip(n + 1) =~= groups.skip(n).skip(1));
                assert(groups.skip(n).skip(1) =~= packed(rest.skip(count as int), budget as int));
                assert(rest.skip(count as int) =~= waiting.skip(start + count));
                assert(all_wf(groups[n])) by {
                    assert forall|k: int| 0 <= k < groups[n].len() implies (
                    #[trigger] groups[n][k]).wf() by {
                        assert(rest[k].wf());
                    }
                }
            }
            let sequence = self.recovery.next();
            let datagram = Datagram { sequence: sequence % MODULUS, frames: group };
            let bytes = datagram.to();
            out.push(bytes);
            let kept = keep_reliable(datagram.frames);
            let sent = Sent { frames: kept, first_sent: now, sent_at: now, tries: 0 };
            let _ = self.recovery.insert(sent);
            start += count;
            proof {
                assert(self.records() =~= records.push(Self::record_of(groups, first, now, n)));
                assert(self.records() =~= before + Seq::new(
                    (n + 1) as nat,
                    |i: int| Self::record_of(groups, first, now, i),
                ));
                assert(Self::records_wf(self.records())) by {
                    assert forall|i: int| 0 <= i < self.records().len() implies all_wf(
                        (#[trigger] self.records()[i]).1.frames,
                    ) && self.records()[i].1.frames.len() <= MAX_FRAMES by {
                        if i < records.len() {
                            assert(self.records()[i] == records[i]);
                        }
                    }
                }
            }
        }
        let ghost n = out@.len() as int;
        let ghost held = all@;
        let left = all.len() - start;
        let mut rest = Self::take_frames(&mut all, start, left);
        std::mem::swap(&mut self.immediate, &mut rest);
        proof {
            lemma_packed_keeps_order(waiting.skip(start as int), budget as int);
            assert(frame_views(self.immediate@) =~= waiting.skip(start as int)) by {
                assert forall|k: int| 0 <= k < waiting.len() - start implies frame_views(
                    self.immediate@,
                )[k] == waiting.skip(start as int)[k] by {
                    assert(held[start + k]@ == waiting[start + k]);
                }
            }
            assert(frame_views(self.normal@) =~= Seq::<FrameView>::empty());
            assert(frame_views(self.low@) =~= Seq::<FrameView>::empty());
            if start == waiting.len() {
                assert(waiting.skip(start as int).len() == 0);
                assert(groups.skip(n).len() == 0);
            }
            assert(all_wf(self.queued(Priority::Immediate))) by {
                assert forall|k: int| 0 <= k < waiting.len() - start implies (
                #[trigger] waiting.skip(start as int)[k]).wf() by {
                    assert(waiting[start + k].wf());
                }
            }
        }
        out
    }

    /// Whether the records are in ascending order of their counts, each
    /// below `next`.
    pub open spec fn counts_in_order(records: Seq<(u32, SentView)>, next: u32) -> bool {
        &&& forall|i: int, j: int| 0 <= i < j < records.len() ==> records[i].0 < records[j].0
        &&& forall|i: int| 0 <= i < records.len() ==> (#[trigger] records[i]).0 < next
    }

    /// The datagrams remembered are in the order they were sent, under
    /// counts that have been handed out.
    pub proof fn lemma_counts_in_order(&self)
        requires
            self.wf(),
        ensures
            Self::counts_in_order(self.records(), self.next_count()),
    {
        assert forall|i: int, j: int| 0 <= i < j < self.records().len() implies self.records()[i].0
            < self.records()[j].0 by {
            assert(self.recovery@[i].0 < self.recovery@[j].0);
        }
        assert forall|i: int| 0 <= i < self.records().len() implies (
        #[trigger] self.records()[i]).0 < self.next_count() by {
            assert(self.recovery@[i].0 < self.recovery.next_index());
        }
    }

    /// Once a datagram is acknowledged it is never sent again: its record
    /// is gone, no later datagram is remembered under its count, and
    /// sending again what is not remembered sends nothing.
    pub proof fn lemma_no_resend_after_ack(
        records: Seq<(u32, SentView)>,
        next: u32,
        k: int,
        now: u64,
        later: SentView,
    )
        requires
            Self::counts_in_order(records, next),
            0 <= k < records.len(),
        ensures
            Self::position_of(records.remove(k), records[k].0 as int) is None,
            Self::position_of(records.remove(k).push((next, later)), records[k].0 as int) is None,
            Self::counts_in_order(records.remove(k), next),
    {
        let count = records[k].0;
        let gone = records.remove(k);
        assert forall|i: int| 0 <= i < gone.len() implies (#[trigger] gone[i]).0 != count by {
            if i < k {
                assert(records[i].0 < records[k].0);
            } else {
                assert(records[k].0 < records[i + 1].0);
            }
        }
        let more = gone.push((next, later));
        assert forall|i: int| 0 <= i < more.len() implies (#[trigger] more[i]).0 != count by {
            if i < gone.len() {
                assert(more[i] == gone[i]);
            }
        }
        assert forall|i: int, j: int| 0 <= i < j < gone.len() implies gone[i].0 < gone[j].0 by {
            let a = if i < k { i } else { i + 1 };
            let b = if j < k { j } else { j + 1 };
            assert(records[a].0 < records[b].0);
        }
        assert forall|i: int| 0 <= i < gone.len() implies (#[trigger] gone[i]).0 < next by {
            let a = if i < k { i } else { i + 1 };
            assert(records[a].0 < next);
        }
    }

    /// Whether `after` holds the same settings, indices and waiting frames
    /// as `before`.
    pub open spec fn same_queues(before: SendQueue, after: SendQueue) -> bool {
        &&& after.mtu() == before.mtu()
        &&& after.max_tries() == before.max_tries()
        &&& after.window() == before.window()
        &&& after.reliable_index() == before.reliable_index()
        &&& after.order_indices() == before.order_indices()
        &&& after.sequence_indices() == before.sequence_indices()
        &&& after.compound_id() == before.compound_id()
        &&& forall|p: Priority| after.queued(p) == before.queued(p)
    }

    /// The count that a datagram with the sequence number `s` was sent
    /// under: the latest count handed out that wraps to `s`. It is negative
    /// if there is none.
    pub open spec fn count_of(&self, s: u32) -> int {
        self.next_count() - 1 - (self.next_count() - 1 - s) % (MODULUS as int)
    }

    /// Where the record of the datagram sent under `count` sits in
    /// `records`, if it is there.
    pub open spec fn position_of(records: Seq<(u32, SentView)>, count: int) -> Option<int> {
        if exists|k: int| 0 <= k < records.len() && (#[trigger] records[k]).0 == count {
            Some(choose|k: int| 0 <= k < records.len() && (#[trigger] records[k]).0 == count)
        } else {
            None
        }
    }

    /// The count that the sequence number `s` was sent under, if any.
    fn find_count(&self, s: u32) -> (count: Option<u32>)
        requires
            self.wf(),
            s < MODULUS,
        ensures
            match count {
                Some(c) => c == self.count_of(s),
                None => self.count_of(s) < 0,
            },
    {
        let next = self.recovery.next();
        if next == 0 {
            return None;
        }
        let last = next - 1;
        let behind = ((last as u64 + MODULUS as u64 - s as u64) % (MODULUS as u64)) as u32;
        assert(behind == (last - s) % (MODULUS as int));
        if behind > last {
            None
        } else {
            Some(last - behind)
        }
    }

    /// Takes the record sent under `count` out of the recovery queue.
    fn forget(&mut self, count: u32) -> (res: Option<Sent>)
        requires
            old(self).wf(),
        ensures
            final(self).wf(),
            Self::same_queues(*old(self), *final(self)),
            final(self).srtt() == old(self).srtt(),
            final(self).next_count() == old(self).next_count(),
            match Self::position_of(old(self).records(), count as int) {
                Some(k) => res matches Some(sent) && sent@ == old(self).records()[k].1 && final(self).records() == old(self).records().remove(k) && all_wf(sent@.frames)
                    && sent@.frames.len() <= MAX_FRAMES,
                None => res is None && final(self).records() == old(self).records(),
            },
            final(self).records().len() < final(self).window() || res is None,
    {
        let ghost before = self.records();
        let res = self.recovery.remove(count);
        proof {
            match &res {
                Some(sent) => {
                    let sent = *sent;
                    let k = choose|k: int|
                        0 <= k < old(self).recovery@.len() && #[trigger] old(self).recovery@[k]
                            == (count, sent) && self.recovery@ == old(self).recovery@.remove(k);
                    assert(before[k].0 == count);
                    let found = Self::position_of(before, count as int)->Some_0;
                    assert(before[found].0 == count);
                    assert(old(self).recovery@[found].0 == count);
                    assert(found == k) by {
                        if found < k {
                            assert(old(self).recovery@[found].0 < old(self).recovery@[k].0);
                        }
                        if k < found {
                            assert(old(self).recovery@[k].0 < old(self).recovery@[found].0);
                        }
                    }
                    assert(self.records() =~= before.remove(k));
                    assert(all_wf(before[k].1.frames));
                },
                None => {
                    if exists|k: int| 0 <= k < before.len() && (#[trigger] before[k]).0 == count {
                        let k = choose|k: int|
                            0 <= k < before.len() && (#[trigger] before[k]).0 == count;
                        assert(old(self).recovery@[k].0 == count);
                    }
                    assert(self.records() =~= before);
                },
            }
            assert(Self::records_wf(self.records())) by {
                assert forall|i: int| 0 <= i < self.records().len() implies all_wf(
                    (#[trigger] self.records()[i]).1.frames,
                ) && self.records()[i].1.frames.len() <= MAX_FRAMES by {
                    match &res {
                        Some(_) => {
                            let k = Self::position_of(before, count as int)->Some_0;
                            if i < k {
                                assert(self.records()[i] == before[i]);
                            } else {
                                assert(self.records()[i] == before[i + 1]);
                            }
                        },
                        None => {
                            assert(self.records()[i] == before[i]);
                        },
                    }
                }
            }
        }
        res
    }

    /// Takes note that the datagram with the sequence number `sequence`
    /// has arrived: it is forgotten and will not be sent again. The time
    /// since its frames were first sent is folded into the smoothed
    /// round-trip time.
    ///
    /// Returns whether the datagram was still remembered.
    pub fn ack(&mut self, sequence: u32, now: u64) -> (acked: bool)
        requires
            old(self).wf(),
            sequence < MODULUS,
        ensures
            final(self).wf(),
            Self::same_queues(*old(self), *final(self)),
            final(self).next_count() == old(self).next_count(),
            match Self::position_of(old(self).records(), old(self).count_of(sequence)) {
                Some(k) => {
                    let record = old(self).records()[k].1;
                    &&& acked
                    &&& final(self).records() == old(self).records().remove(k)
                    &&& final(self).srtt() == smoothed(
                        old(self).srtt(),
                        since(now, record.first_sent),
                    )
                },
                None => !acked && final(self).records() == old(self).records() && final(self).srtt() == old(self).srtt(),
            },
    {
        let count = match self.find_count(sequence) {
            Some(count) => count,
            None => {
                return false;
            },
        };
        match self.forget(count) {
            Some(sent) => {
                let sample = if now >= sent.first_sent {
                    now - sent.first_sent
                } else {
                    0
                };
                self.srtt = smooth(self.srtt, sample);
                true
            },
            None => false,
        }
    }

    /// Whether `res` and `after` are what sending the datagram remembered
    /// under `count` again at time `now` gives from `before`.
    ///
    /// A datagram that is not remembered cannot be sent again. One that
    /// carried nothing reliable is forgotten. One that has been sent again
    /// as often as allowed is given up and forgotten. Any other is sent
    /// with its reliable frames under the next sequence number, and
    /// remembered under that number with one more try.
    pub open spec fn resent(
        before: SendQueue,
        count: int,
        now: u64,
        res: Resend,
        after: SendQueue,
    ) -> bool {
        &&& Self::same_queues(before, after)
        &&& after.srtt() == before.srtt()
        &&& match Self::position_of(before.records(), count) {
            None => res is Missing && after.records() == before.records() && after.next_count()
                == before.next_count(),
            Some(k) => {
                let record = before.records()[k].1;
                if record.frames.len() == 0 {
                    &&& res is Nothing
                    &&& after.records() == before.records().remove(k)
                    &&& after.next_count() == before.next_count()
                } else if record.tries >= before.max_tries() || before.next_count() == u32::MAX {
                    &&& res is GaveUp
                    &&& after.records() == before.records().remove(k)
                    &&& after.next_count() == before.next_count()
                } else {
                    &&& res matches Resend::Again(bytes)
                    &&& bytes@ == (DatagramView {
                        sequence: wrap(before.next_count() as int),
                        frames: record.frames,
                    }).encoding()
                    &&& after.records() == before.records().remove(k).push(
                        (
                            before.next_count(),
                            SentView {
                                frames: record.frames,
                                first_sent: record.first_sent,
                                sent_at: now,
                                tries: (record.tries + 1) as u16,
                            },
                        ),
                    )
                    &&& after.next_count() == before.next_count() + 1
                }
            },
        }
    }

    /// Sends the datagram remembered under `count` again.
    fn resend(&mut self, count: u32, now: u64) -> (res: Resend)
        requires
            old(self).wf(),
        ensures
            final(self).wf(),
            Self::resent(*old(self), count as int, now, res, *final(self)),
    {
        let sent = match self.forget(count) {
            Some(sent) => sent,
            None => {
                return Resend::Missing;
            },
        };
        if sent.frames.len() == 0 {
            return Resend::Nothing;
        }
        let next = self.recovery.next();
        if sent.tries >= self.max_tries || next == u32::MAX {
            return Resend::GaveUp;
        }
        let ghost records = self.records();
        let tries = sent.tries + 1;
        let datagram = Datagram { sequence: next % MODULUS, frames: sent.frames };
        let bytes = datagram.to();
        let again = Sent {
            frames: datagram.frames,
            first_sent: sent.first_sent,
            sent_at: now,
            tries,
        };
        let _ = self.recovery.insert(again);
        proof {
            assert(self.records() =~= records.push((next, again@)));
            assert(Self::records_wf(self.records())) by {
                assert forall|i: int| 0 <= i < self.records().len() implies all_wf(
                    (#[trigger] self.records()[i]).1.frames,
                ) && self.records()[i].1.frames.len() <= MAX_FRAMES by {
                    if i < records.len() {
                        assert(self.records()[i] == records[i]);
                    }
                }
            }
        }
        Resend::Again(bytes)
    }

    /// Takes note that the peer reports the datagram with the sequence
    /// number `sequence` missing, and sends it again.
    pub fn nack(&mut self, sequence: u32, now: u64) -> (res: Resend)
        requires
            old(self).wf(),
            sequence < MODULUS,
        ensures
            final(self).wf(),
            Self::resent(*old(self), old(self).count_of(sequence), now, res, *final(self)),
    {
        match self.find_count(sequence) {
            Some(count) => self.resend(count, now),
            None => {
                proof {
                    let records = self.records();
                    if exists|k: int|
                        0 <= k < records.len() && (#[trigger] records[k]).0 == self.count_of(
                            sequence,
                        ) {
                        let k = choose|k: int|
                            0 <= k < records.len() && (#[trigger] records[k]).0 == self.count_of(
                                sequence,
                            );
                        assert(self.recovery@[k].0 >= 0);
                    }
                }
                Resend::Missing
            },
        }
    }

    /// Whether the oldest datagram remembered has waited for its
    /// acknowledgement longer than the retransmission timeout.
    pub open spec fn overdue(&self, now: u64) -> bool {
        self.records().len() > 0 && since(now, self.records()[0].1.sent_at) > rto_of(
            self.srtt(),
        )
    }

    /// Sends the oldest datagram remembered again if it is overdue, and
    /// tells what came of it. A caller repeats this until nothing is
    /// overdue.
    pub fn expire(&mut self, now: u64) -> (res: Option<Resend>)
        requires
            old(self).wf(),
        ensures
            final(self).wf(),
            match res {
                Some(done) => old(self).overdue(now) && Self::resent(
                    *old(self),
                    old(self).records()[0].0 as int,
                    now,
                    done,
                    *final(self),
                ),
                None => !old(self).overdue(now) && *final(self) == *old(self),
            },
    {
        let count = match self.recovery.oldest() {
            Some((count, sent)) => {
                let waited = if now >= sent.sent_at {
                    now - sent.sent_at
                } else {
                    0
                };
                if waited <= rto(self.srtt) {
                    return None;
                }
                count
            },
            None => {
                return None;
            },
        };
        Some(self.resend(count, now))
    }

    /// The smoothed round-trip time, in milliseconds.
    pub fn round_trip(&self) -> (srtt: u64)
        ensures
            srtt == self.srtt(),
    {
        self.srtt
    }

    /// How many datagrams are remembered.
    pub fn unacknowledged(&self) -> (n: usize)
        ensures
            n == self.records().len(),
    {
        self.recovery.len()
    }

    /// Whether no frame waits to be sent.
    pub fn is_idle(&self) -> (idle: bool)
        ensures
            idle == (self.waiting().len() == 0),
    {
        self.immediate.len() == 0 && self.normal.len() == 0 && self.low.len() == 0
    }
}

/// The reliable frames among `frames`, in their order.
pub open spec fn reliable_only(frames: Seq<FrameView>) -> Seq<FrameView>
    decreases frames.len(),
{
    if frames.len() == 0 {
        Seq::empty()
    } else if frames.last().reliability.is_reliable() {
        reliable_only(frames.drop_last()).push(frames.last())
    } else {
        reliable_only(frames.drop_last())
    }
}

/// Keeps the reliable frames of `frames`.
fn keep_reliable(frames: Vec<Frame>) -> (kept: Vec<Frame>)
    requires
        all_wf(frame_views(frames@)),
    ensures
        frame_views(kept@) == reliable_only(frame_views(frames@)),
        all_wf(frame_views(kept@)),
        kept@.len() <= frames@.len(),
{
    let ghost all = frame_views(frames@);
    let mut frames = frames;
    let mut kept: Vec<Frame> = Vec::new();
    let total = frames.len();
    let mut i: usize = 0;
    assert(all.take(0) =~= Seq::<FrameView>::empty());
    while i < total
        invariant
            i <= total,
            total == all.len(),
            frames@.len() == total,
            all_wf(all),
            forall|k: int| i <= k < total ==> (#[trigger] frames@[k])@ == all[k],
            frame_views(kept@) == reliable_only(all.take(i as int)),
            all_wf(frame_views(kept@)),
            kept@.len() <= i,
        decreases total - i,
    {
        let ghost before = frame_views(kept@);
        assert(frames@[i as int]@ == all[i as int]);
        assert(all[i as int].wf());
        if frames[i].reliability.reliable() {
            let mut frame = SendQueue::blank();
            std::mem::swap(&mut frame, &mut frames[i]);
            kept.push(frame);
            assert(frame_views(kept@) =~= before.push(all[i as int]));
        }
        i += 1;
        proof {
            let now = all.take(i as int);
            assert(now.drop_last() =~= all.take(i - 1));
            assert(now.last() == all[i - 1]);
            assert forall|k: int| 0 <= k < kept@.len() implies (#[trigger] frame_views(
                kept@,
            )[k]).wf() by {
                if k < before.len() {
                    assert(frame_views(kept@)[k] == before[k]);
                }
            }
        }
    }
    assert(all.take(i as int) =~= all);
    kept
}

/// The compound id that the count `x` stands for.
pub open spec fn wrap16(x: int) -> u16 {
    (x % 0x1_0000) as u16
}

} // verus!
