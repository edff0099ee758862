//! Turning payloads into frames and frames into datagrams under an MTU.

use crate::conn::fragment::pieces;
use crate::conn::fragment::split;
use crate::conn::fragment::lemma_piece_sizes;
use crate::conn::window::wrap;
use crate::conn::window::MODULUS;
use crate::protocol::frame::payload_offset;
use crate::protocol::frame::Fragment;
use crate::protocol::frame::Frame;
use crate::protocol::frame::FrameView;
use crate::protocol::frame::Reliability;
use crate::protocol::frame::CHANNELS;
use crate::protocol::frame::INDEX_LIMIT;
use crate::protocol::frame::MAX_PAYLOAD;
use crate::protocol::offline::MIN_MTU;
use crate::protocol::offline::UDP_HEADER_SIZE;
use vstd::prelude::*;

verus! {

/// The bytes a datagram spends before its first frame: the flag byte and
/// the sequence number.
pub const DATAGRAM_HEADER: u16 = 4;

/// The largest payload that a frame of mode `mode` can carry in a datagram
/// of its own under the MTU `mtu`, as a fragment or whole.
pub open spec fn capacity(mtu: u16, mode: Reliability, fragmented: bool) -> int {
    let room = mtu - UDP_HEADER_SIZE - DATAGRAM_HEADER - payload_offset(mode, fragmented);
    if room > MAX_PAYLOAD {
        MAX_PAYLOAD as int
    } else {
        room
    }
}

/// The largest payload that a frame of mode `mode` can carry in a datagram
/// of its own under the MTU `mtu`.
pub fn room(mtu: u16, mode: Reliability, fragmented: bool) -> (out: usize)
    requires
        mtu >= MIN_MTU,
    ensures
        out == capacity(mtu, mode, fragmented),
        out >= 524,
{
    let mut header: u16 = 3;
    if mode.reliable() {
        header += 3;
    }
    if mode.ordered() || mode.sequenced() {
        header += 4;
    }
    if fragmented {
        header += 10;
    }
    let left = (mtu - UDP_HEADER_SIZE - DATAGRAM_HEADER - header) as usize;
    if left > MAX_PAYLOAD {
        MAX_PAYLOAD
    } else {
        left
    }
}

/// The frame that carries `payload`, or a piece of it, with the given
/// indices. The indices that the mode does not call for are zero.
pub open spec fn frame_of(
    mode: Reliability,
    channel: u8,
    reliable_index: u32,
    order_index: u32,
    fragment: Option<Fragment>,
    payload: Seq<u8>,
) -> FrameView {
    FrameView {
        reliability: mode,
        reliable_index: if mode.is_reliable() {
            reliable_index
        } else {
            0
        },
        order_index: if mode.has_channel() {
            order_index
        } else {
            0
        },
        channel: if mode.has_channel() {
            channel
        } else {
            0
        },
        fragment,
        payload,
    }
}

/// The frames that carry `payload` under the MTU `mtu`.
///
/// A payload that fits is one frame. A larger one is split into pieces
/// that fit as fragments; the fragments share the compound id and the
/// ordering index, and each takes the next reliable index, wrapping at
/// 2^24.
pub open spec fn framed(
    payload: Seq<u8>,
    mode: Reliability,
    channel: u8,
    reliable_index: u32,
    order_index: u32,
    compound_id: u16,
    mtu: u16,
) -> Seq<FrameView> {
    if payload.len() <= capacity(mtu, mode, false) {
        seq![frame_of(mode, channel, reliable_index, order_index, None, payload)]
    } else {
        let parts = pieces(payload, capacity(mtu, mode, true));
        Seq::new(
            parts.len(),
            |i: int|
                frame_of(
                    mode,
                    channel,
                    wrap(reliable_index + i),
                    order_index,
                    Some(
                        Fragment {
                            compound_size: parts.len() as u32,
                            compound_id,
                            index: i as u32,
                        },
                    ),
                    parts[i],
                ),
        )
    }
}

/// A payload of exactly the capacity makes one frame without a fragment
/// descriptor; one byte more makes exactly two fragments.
pub proof fn lemma_framed_at_the_limit(
    payload: Seq<u8>,
    mode: Reliability,
    channel: u8,
    reliable_index: u32,
    order_index: u32,
    compound_id: u16,
    mtu: u16,
)
    requires
        mtu >= MIN_MTU,
    ensures
        payload.len() <= capacity(mtu, mode, false) ==> framed(
            payload,
            mode,
            channel,
            reliable_index,
            order_index,
            compound_id,
            mtu,
        ).len() == 1 && framed(
            payload,
            mode,
            channel,
            reliable_index,
            order_index,
            compound_id,
            mtu,
        )[0].fragment is None,
        payload.len() == capacity(mtu, mode, false) + 1 ==> framed(
            payload,
            mode,
            channel,
            reliable_index,
            order_index,
            compound_id,
            mtu,
        ).len() == 2,
{
    let max = capacity(mtu, mode, true);
    if payload.len() == capacity(mtu, mode, false) + 1 {
        let rest = payload.skip(max);
        assert(pieces(payload, max) == seq![payload.take(max)] + pieces(rest, max));
        assert(rest.len() <= max);
        assert(pieces(rest, max) == seq![rest]);
    }
}

/// The payloads of the frames of a split payload are its pieces, so that
/// putting them together in index order gives the payload back.
pub proof fn lemma_framed_pieces(
    payload: Seq<u8>,
    mode: Reliability,
    channel: u8,
    reliable_index: u32,
    order_index: u32,
    compound_id: u16,
    mtu: u16,
)
    requires
        mtu >= MIN_MTU,
        payload.len() > capacity(mtu, mode, false),
    ensures
        ({
            let frames = framed(
                payload,
                mode,
                channel,
                reliable_index,
                order_index,
                compound_id,
                mtu,
            );
            let parts = pieces(payload, capacity(mtu, mode, true));
            &&& frames.len() == parts.len()
            &&& forall|i: int|
                0 <= i < frames.len() ==> (#[trigger] frames[i]).payload == parts[i]
                    && frames[i].fragment == Some(
                    Fragment {
                        compound_size: parts.len() as u32,
                        compound_id,
                        index: i as u32,
                    },
                )
        }),
{
}

/// Builds the frames that carry `payload` under the MTU `mtu`.
pub fn frames_for(
    payload: &[u8],
    mode: Reliability,
    channel: u8,
    reliable_index: u32,
    order_index: u32,
    compound_id: u16,
    mtu: u16,
) -> (frames: Vec<Frame>)
    requires
        mtu >= MIN_MTU,
        channel < CHANNELS,
        reliable_index < INDEX_LIMIT,
        order_index < INDEX_LIMIT,
        payload@.len() < u32::MAX,
    ensures
        crate::protocol::datagram::frame_views(frames@) == framed(
            payload@,
            mode,
            channel,
            reliable_index,
            order_index,
            compound_id,
            mtu,
        ),
        crate::protocol::datagram::all_wf(crate::protocol::datagram::frame_views(frames@)),
        1 <= frames@.len() <= payload@.len() + 1,
{
    let reliable = mode.reliable();
    let has_channel = mode.ordered() || mode.sequenced();
    let order = if has_channel {
        order_index
    } else {
        0
    };
    let lane = if has_channel {
        channel
    } else {
        0
    };
    let mut frames: Vec<Frame> = Vec::new();
    if payload.len() <= room(mtu, mode, false) {
        frames.push(
            Frame {
                reliability: mode,
                reliable_index: if reliable {
                    reliable_index
                } else {
                    0
                },
                order_index: order,
                channel: lane,
                fragment: None,
                payload: vstd::slice::slice_to_vec(payload),
            },
        );
        assert(crate::protocol::datagram::frame_views(frames@) =~= framed(
            payload@,
            mode,
            channel,
            reliable_index,
            order_index,
            compound_id,
            mtu,
        ));
        return frames;
    }
    let max = room(mtu, mode, true);
    let mut parts = split(payload, max);
    let ghost all = pieces(payload@, max as int);
    proof {
        lemma_piece_sizes(payload@, max as int);
    }
    let total = parts.len();
    let ghost target = framed(payload@, mode, channel, reliable_index, order_index, compound_id, mtu);
    let mut i: usize = 0;
    while i < total
        invariant
            i <= total,
            total == all.len(),
            total <= payload@.len() + 1,
            payload@.len() < u32::MAX,
            parts@.len() == total,
            forall|k: int| i <= k < total ==> (#[trigger] parts@[k])@ == all[k],
            forall|k: int| 0 <= k < total ==> (#[trigger] all[k]).len() <= MAX_PAYLOAD,
            target.len() == total,
            forall|k: int|
                0 <= k < total ==> #[trigger] target[k] == frame_of(
                    mode,
                    channel,
                    wrap(reliable_index + k),
                    order_index,
                    Some(
                        Fragment { compound_size: total as u32, compound_id, index: k as u32 },
                    ),
                    all[k],
                ),
            reliable == mode.is_reliable(),
            has_channel == mode.has_channel(),
            order == if has_channel { order_index } else { 0 },
            lane == if has_channel { channel } else { 0 },
            channel < CHANNELS,
            reliable_index < INDEX_LIMIT,
            order_index < INDEX_LIMIT,
            frames@.len() == i,
            forall|k: int| 0 <= k < i ==> (#[trigger] frames@[k])@ == target[k],
            forall|k: int| 0 <= k < i ==> (#[trigger] frames@[k])@.wf(),
        decreases total - i,
    {
        let mut piece: Vec<u8> = Vec::new();
        std::mem::swap(&mut piece, &mut parts[i]);
        let index = ((reliable_index as u64 + i as u64) % (MODULUS as u64)) as u32;
        assert(index == wrap(reliable_index + i));
        frames.push(
            Frame {
                reliability: mode,
                reliable_index: if reliable {
                    index
                } else {
                    0
                },
                order_index: order,
                channel: lane,
                fragment: Some(
                    Fragment { compound_size: total as u32, compound_id, index: i as u32 },
                ),
                payload: piece,
            },
        );
        i += 1;
    }
    assert(crate::protocol::datagram::frame_views(frames@) =~= target);
    frames
}

/// How many of `frames`, from the front, fit together into `room` bytes.
pub open spec fn fitting(frames: Seq<FrameView>, room: int) -> int
    decreases frames.len(),
{
    if frames.len() == 0 || frames[0].size() > room {
        0
    } else {
        1 + fitting(frames.skip(1), room - frames[0].size())
    }
}

/// How many of `frames` go into the next datagram: as many as fit into
/// `budget` bytes, and the first one in any case.
pub open spec fn first_group(frames: Seq<FrameView>, budget: int) -> int {
    if fitting(frames, budget) == 0 {
        1
    } else {
        fitting(frames, budget)
    }
}

/// The frames grouped into datagrams of at most `budget` bytes of frames:
/// each datagram is filled until the next frame would overflow it.
pub open spec fn packed(frames: Seq<FrameView>, budget: int) -> Seq<Seq<FrameView>>
    decreases frames.len(),
    via packed_decreases
{
    if frames.len() == 0 {
        Seq::empty()
    } else {
        seq![frames.take(first_group(frames, budget))] + packed(
            frames.skip(first_group(frames, budget)),
            budget,
        )
    }
}

#[via_fn]
proof fn packed_decreases(frames: Seq<FrameView>, budget: int) {
    if frames.len() > 0 {
        lemma_fitting_bounds(frames, budget);
    }
}

/// No more frames fit than there are.
pub proof fn lemma_fitting_bounds(frames: Seq<FrameView>, room: int)
    ensures
        0 <= fitting(frames, room) <= frames.len(),
    decreases frames.len(),
{
    if frames.len() > 0 && frames[0].size() <= room {
        lemma_fitting_bounds(frames.skip(1), room - frames[0].size());
    }
}

/// Frames that fit together are few: each takes three bytes or more.
pub proof fn lemma_fitting_small(frames: Seq<FrameView>, room: int)
    requires
        crate::protocol::datagram::all_wf(frames),
        room >= 0,
    ensures
        3 * fitting(frames, room) <= room,
    decreases frames.len(),
{
    if frames.len() > 0 && frames[0].size() <= room {
        let rest = frames.skip(1);
        assert(frames[0].wf());
        assert forall|i: int| 0 <= i < rest.len() implies (#[trigger] rest[i]).wf() by {
            assert(frames[i + 1].wf());
        }
        lemma_fitting_small(rest, room - frames[0].size());
    }
}

/// The groups put back together, first to last.
pub open spec fn ungrouped(groups: Seq<Seq<FrameView>>) -> Seq<FrameView>
    decreases groups.len(),
{
    if groups.len() == 0 {
        Seq::empty()
    } else {
        groups[0] + ungrouped(groups.skip(1))
    }
}

/// Packing loses no frame and keeps the frames in order.
pub proof fn lemma_packed_keeps_order(frames: Seq<FrameView>, budget: int)
    ensures
        ungrouped(packed(frames, budget)) == frames,
        forall|g: int|
            0 <= g < packed(frames, budget).len() ==> (#[trigger] packed(frames, budget)[g]).len()
                >= 1,
    decreases frames.len(),
{
    if frames.len() == 0 {
        assert(frames =~= Seq::<FrameView>::empty());
    } else {
        lemma_fitting_bounds(frames, budget);
        let k = first_group(frames, budget);
        let rest = frames.skip(k);
        lemma_packed_keeps_order(rest, budget);
        let groups = packed(frames, budget);
        assert(groups.skip(1) =~= packed(rest, budget));
        assert(groups[0] == frames.take(k));
        assert(frames.take(k) + rest =~= frames);
        assert forall|g: int| 0 <= g < groups.len() implies (#[trigger] groups[g]).len() >= 1 by {
            if g > 0 {
                assert(groups[g] == packed(rest, budget)[g - 1]);
            }
        }
    }
}

/// The retransmission timeout for a smoothed round-trip time, in
/// milliseconds: three times the estimate, but no less than 50 ms and no
/// more than 3 s.
pub open spec fn rto_of(srtt: u64) -> u64 {
    if 3 * srtt < 50 {
        50
    } else if 3 * srtt > 3000 {
        3000
    } else {
        (3 * srtt) as u64
    }
}

/// The retransmission timeout for the smoothed round-trip time `srtt`.
pub fn rto(srtt: u64) -> (out: u64)
    ensures
        out == rto_of(srtt),
        50 <= out <= 3000,
{
    if srtt > 1000 {
        3000
    } else if 3 * srtt < 50 {
        50
    } else {
        3 * srtt
    }
}

/// The smoothed round-trip time after a new sample: seven parts of the old
/// estimate and one part of the sample.
pub open spec fn smoothed(srtt: u64, sample: u64) -> u64 {
    ((7 * srtt + sample) / 8) as u64
}

/// Folds a round-trip sample into the smoothed estimate.
pub fn smooth(srtt: u64, sample: u64) -> (out: u64)
    ensures
        out == smoothed(srtt, sample),
        out <= if srtt > sample { srtt } else { sample },
{
    ((7 * (srtt as u128) + sample as u128) / 8) as u64
}

/// How many frames of `frames`, from position `start` on, go into the next
/// datagram.
pub fn count_group(frames: &Vec<Frame>, start: usize, budget: usize) -> (k: usize)
    requires
        start < frames@.len(),
        crate::protocol::datagram::all_wf(crate::protocol::datagram::frame_views(frames@)),
    ensures
        k == first_group(crate::protocol::datagram::frame_views(frames@).skip(start as int), budget as int),
        1 <= k <= frames@.len() - start,
{
    let ghost all = crate::protocol::datagram::frame_views(frames@);
    let ghost rest = all.skip(start as int);
    let mut k: usize = 0;
    let mut left: usize = budget;
    assert(rest.skip(0) =~= rest);
    while k < frames.len() - start
        invariant
            start < frames@.len(),
            k <= frames@.len() - start,
            all == crate::protocol::datagram::frame_views(frames@),
            crate::protocol::datagram::all_wf(all),
            rest == all.skip(start as int),
            fitting(rest, budget as int) == k + fitting(rest.skip(k as int), left as int),
        ensures
            k <= frames@.len() - start,
            fitting(rest, budget as int) == k,
        decreases frames@.len() - start - k,
    {
        assert(rest.skip(k as int)[0] == all[start + k]);
        assert(all[start + k].wf());
        let size = frames[start + k].size();
        if size > left {
            break ;
        }
        assert(rest.skip(k as int).skip(1) =~= rest.skip(k + 1));
        left -= size;
        k += 1;
    }
    if k == 0 {
        1
    } else {
        k
    }
}


} // verus!
