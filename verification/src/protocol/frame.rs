//! Frames: the unit of reliability and ordering inside an online datagram.
//!
//! A frame starts with a header byte (the reliability tag in bits 7 to 5,
//! the fragment flag in bit 4) and the payload length in bits as a
//! big-endian 16-bit integer. Then follow, as far as the tag calls for
//! them, the reliable index, the ordering index with its channel, and the
//! fragment descriptor; then the payload. Indices are 24-bit little-endian.

use crate::protocol::stream::lemma_u16_round_trip;
use crate::protocol::stream::lemma_u24_round_trip;
use crate::protocol::stream::lemma_u32_round_trip;
use crate::protocol::stream::read_bytes;
use crate::protocol::stream::read_u16;
use crate::protocol::stream::read_u24_le;
use crate::protocol::stream::read_u32;
use crate::protocol::stream::read_u8;
use crate::protocol::stream::reader_bytes;
use crate::protocol::stream::reader_len;
use crate::protocol::stream::u16_be;
use crate::protocol::stream::u16_from_be;
use crate::protocol::stream::u24_from_le;
use crate::protocol::stream::u24_le;
use crate::protocol::stream::u32_be;
use crate::protocol::stream::u32_from_be;
use crate::protocol::stream::write_bytes;
use crate::protocol::stream::write_u16;
use crate::protocol::stream::write_u24_le;
use crate::protocol::stream::write_u32;
use crate::protocol::stream::write_u8;
use crate::protocol::stream::writer_bytes;
use binary_util::io::ByteReader;
use binary_util::io::ByteWriter;
use vstd::prelude::*;

verus! {

/// The largest payload a frame can carry: its length in bits must fit in
/// sixteen bits.
pub const MAX_PAYLOAD: usize = 8191;

/// The largest number of bytes a frame takes on the wire: a header of at
/// most twenty bytes and the largest payload.
pub const MAX_FRAME: usize = 8211;

/// One past the largest index that fits in 24 bits.
pub const INDEX_LIMIT: u32 = 0x100_0000;

/// The number of ordering channels.
pub const CHANNELS: u8 = 32;

/// The delivery guarantee a frame asks for.
#[derive(Debug, Clone, Copy, PartialEq, Eq, Structural)]
pub enum Reliability {
    /// No retransmission, no duplicate suppression, no ordering.
    Unreliable,
    /// Dropped if older than what its channel has already delivered.
    UnreliableSeq,
    /// Retransmitted until acknowledged; duplicates are suppressed.
    Reliable,
    /// Reliable, and delivered in order on its channel.
    ReliableOrd,
    /// Reliable, and dropped if older than what its channel has delivered.
    ReliableSeq,
    /// Unreliable, but the receiver is asked to acknowledge it.
    UnreliableAck,
}

impl Reliability {
    /// The three-bit tag of the mode.
    pub open spec fn tag(self) -> u8 {
        match self {
            Reliability::Unreliable => 0,
            Reliability::UnreliableSeq => 1,
            Reliability::Reliable => 2,
            Reliability::ReliableOrd => 3,
            Reliability::ReliableSeq => 4,
            Reliability::UnreliableAck => 5,
        }
    }

    /// The mode a tag names, if any.
    pub open spec fn of_tag(tag: u8) -> Option<Reliability> {
        if tag == 0 {
            Some(Reliability::Unreliable)
        } else if tag == 1 {
            Some(Reliability::UnreliableSeq)
        } else if tag == 2 {
            Some(Reliability::Reliable)
        } else if tag == 3 {
            Some(Reliability::ReliableOrd)
        } else if tag == 4 {
            Some(Reliability::ReliableSeq)
        } else if tag == 5 {
            Some(Reliability::UnreliableAck)
        } else {
            None
        }
    }

    /// Whether frames of this mode carry a reliable index.
    pub open spec fn is_reliable(self) -> bool {
        self is Reliable || self is ReliableOrd || self is ReliableSeq
    }

    /// Whether frames of this mode are delivered in order.
    pub open spec fn is_ordered(self) -> bool {
        self is ReliableOrd
    }

    /// Whether frames of this mode are dropped when they arrive late.
    pub open spec fn is_sequenced(self) -> bool {
        self is UnreliableSeq || self is ReliableSeq
    }

    /// Whether frames of this mode carry an ordering index and a channel.
    pub open spec fn has_channel(self) -> bool {
        self.is_ordered() || self.is_sequenced()
    }

    /// The three-bit tag of the mode.
    pub fn to_byte(&self) -> (tag: u8)
        ensures
            tag == self.tag(),
            tag < 6,
    {
        match *self {
            Reliability::Unreliable => 0,
            Reliability::UnreliableSeq => 1,
            Reliability::Reliable => 2,
            Reliability::ReliableOrd => 3,
            Reliability::ReliableSeq => 4,
            Reliability::UnreliableAck => 5,
        }
    }

    /// The mode that `tag` names, if any.
    pub fn from_byte(tag: u8) -> (mode: Option<Reliability>)
        ensures
            mode == Self::of_tag(tag),
    {
        match tag {
            0 => Some(Reliability::Unreliable),
            1 => Some(Reliability::UnreliableSeq),
            2 => Some(Reliability::Reliable),
            3 => Some(Reliability::ReliableOrd),
            4 => Some(Reliability::ReliableSeq),
            5 => Some(Reliability::UnreliableAck),
            _ => None,
        }
    }

    /// Whether frames of this mode carry a reliable index.
    pub fn reliable(&self) -> (yes: bool)
        ensures
            yes == self.is_reliable(),
    {
        match *self {
            Reliability::Reliable | Reliability::ReliableOrd | Reliability::ReliableSeq => true,
            _ => false,
        }
    }

    /// Whether frames of this mode are delivered in order.
    pub fn ordered(&self) -> (yes: bool)
        ensures
            yes == self.is_ordered(),
    {
        match *self {
            Reliability::ReliableOrd => true,
            _ => false,
        }
    }

    /// Whether frames of this mode are dropped when they arrive late.
    pub fn sequenced(&self) -> (yes: bool)
        ensures
            yes == self.is_sequenced(),
    {
        match *self {
            Reliability::UnreliableSeq | Reliability::ReliableSeq => true,
            _ => false,
        }
    }

    /// A mode's tag names the mode.
    pub proof fn lemma_tag_round_trip(self)
        ensures
            Self::of_tag(self.tag()) == Some(self),
    {
    }
}

/// Why the bytes of a frame or datagram could not be read.
#[derive(Debug, Clone, Copy, PartialEq, Eq, Structural)]
pub enum FrameError {
    /// The bytes end before the frame or datagram does.
    Truncated,
    /// The reliability tag names no mode.
    BadReliability,
    /// The channel is not below 32.
    BadChannel,
    /// The flag byte lacks the bit that marks an online datagram.
    NotOnline,
    /// The flag byte is not that of the kind of datagram asked for.
    WrongKind,
}

/// Where a fragment belongs in the payload it was split from.
#[derive(Debug, Clone, Copy, PartialEq, Eq, Structural)]
pub struct Fragment {
    /// The number of fragments the payload was split into.
    pub compound_size: u32,
    /// The id that the fragments of one payload share.
    pub compound_id: u16,
    /// The position of this fragment among them, from zero.
    pub index: u32,
}

/// A frame. The fields that its reliability does not call for are zero.
#[derive(Debug, Clone, PartialEq, Eq)]
pub struct Frame {
    pub reliability: Reliability,
    pub reliable_index: u32,
    pub order_index: u32,
    pub channel: u8,
    pub fragment: Option<Fragment>,
    pub payload: Vec<u8>,
}

/// A frame as a mathematical value.
pub struct FrameView {
    pub reliability: Reliability,
    pub reliable_index: u32,
    pub order_index: u32,
    pub channel: u8,
    pub fragment: Option<Fragment>,
    pub payload: Seq<u8>,
}

impl View for Frame {
    type V = FrameView;

    open spec fn view(&self) -> FrameView {
        FrameView {
            reliability: self.reliability,
            reliable_index: self.reliable_index,
            order_index: self.order_index,
            channel: self.channel,
            fragment: self.fragment,
            payload: self.payload@,
        }
    }
}

/// Where the ordering index starts in a frame of mode `mode`.
pub open spec fn order_offset(mode: Reliability) -> int {
    if mode.is_reliable() {
        6
    } else {
        3
    }
}

/// Where the fragment descriptor starts in a frame of mode `mode`.
pub open spec fn fragment_offset(mode: Reliability) -> int {
    order_offset(mode) + if mode.has_channel() {
        4int
    } else {
        0int
    }
}

/// Where the payload starts in a frame of mode `mode`, fragmented or not.
pub open spec fn payload_offset(mode: Reliability, fragmented: bool) -> int {
    fragment_offset(mode) + if fragmented {
        10int
    } else {
        0int
    }
}

impl FrameView {
    /// The payload fits, the indices fit in 24 bits, the channel is one of
    /// the 32, and the fields the mode does not call for are zero.
    pub open spec fn wf(self) -> bool {
        &&& self.payload.len() <= MAX_PAYLOAD
        &&& self.reliable_index < INDEX_LIMIT
        &&& self.order_index < INDEX_LIMIT
        &&& self.channel < CHANNELS
        &&& !self.reliability.is_reliable() ==> self.reliable_index == 0
        &&& !self.reliability.has_channel() ==> self.order_index == 0 && self.channel == 0
    }

    /// The header byte: the tag in the top three bits, then the fragment
    /// flag.
    pub open spec fn header(self) -> u8 {
        (self.reliability.tag() * 32 + if self.fragment is Some {
            16int
        } else {
            0int
        }) as u8
    }

    /// The bytes of the reliable index, if the mode calls for one.
    pub open spec fn reliable_part(self) -> Seq<u8> {
        if self.reliability.is_reliable() {
            u24_le(self.reliable_index)
        } else {
            Seq::empty()
        }
    }

    /// The bytes of the ordering index and channel, if the mode calls for
    /// them.
    pub open spec fn order_part(self) -> Seq<u8> {
        if self.reliability.has_channel() {
            u24_le(self.order_index).push(self.channel)
        } else {
            Seq::empty()
        }
    }

    /// The bytes of the fragment descriptor, if the frame is a fragment.
    pub open spec fn fragment_part(self) -> Seq<u8> {
        match self.fragment {
            Some(f) => u32_be(f.compound_size) + u16_be(f.compound_id) + u32_be(f.index),
            None => Seq::empty(),
        }
    }

    /// The bytes of the frame.
    pub open spec fn encoding(self) -> Seq<u8> {
        seq![self.header()] + u16_be((self.payload.len() * 8) as u16) + self.reliable_part()
            + self.order_part() + self.fragment_part() + self.payload
    }

    /// The frame that `b` starts with and the number of bytes it takes.
    pub open spec fn parse(b: Seq<u8>) -> Result<(FrameView, int), FrameError> {
        if b.len() < 3 {
            Err(FrameError::Truncated)
        } else {
            match Reliability::of_tag(b[0] / 32) {
                None => Err(FrameError::BadReliability),
                Some(mode) => {
                    let fragmented = (b[0] / 16) % 2 == 1;
                    let size = (u16_from_be(b.skip(1)) + 7) / 8;
                    let start = payload_offset(mode, fragmented);
                    if b.len() < start {
                        Err(FrameError::Truncated)
                    } else if mode.has_channel() && b[order_offset(mode) + 3] >= CHANNELS {
                        Err(FrameError::BadChannel)
                    } else if b.len() < start + size {
                        Err(FrameError::Truncated)
                    } else {
                        Ok(
                            (
                                FrameView {
                                    reliability: mode,
                                    reliable_index: if mode.is_reliable() {
                                        u24_from_le(b.skip(3))
                                    } else {
                                        0
                                    },
                                    order_index: if mode.has_channel() {
                                        u24_from_le(b.skip(order_offset(mode)))
                                    } else {
                                        0
                                    },
                                    channel: if mode.has_channel() {
                                        b[order_offset(mode) + 3]
                                    } else {
                                        0
                                    },
                                    fragment: if fragmented {
                                        Some(
                                            Fragment {
                                                compound_size: u32_from_be(
                                                    b.skip(fragment_offset(mode)),
                                                ),
                                                compound_id: u16_from_be(
                                                    b.skip(fragment_offset(mode) + 4),
                                                ),
                                                index: u32_from_be(
                                                    b.skip(fragment_offset(mode) + 6),
                                                ),
                                            },
                                        )
                                    } else {
                                        None
                                    },
                                    payload: b.subrange(start, start + size),
                                },
                                start + size,
                            ),
                        )
                    }
                },
            }
        }
    }

    /// Where the parts of a frame start, whatever they hold.
    proof fn lemma_layout(
        header: u8,
        size: Seq<u8>,
        reliable: Seq<u8>,
        order: Seq<u8>,
        fragment: Seq<u8>,
        payload: Seq<u8>,
        rest: Seq<u8>,
    )
        requires
            size.len() == 2,
        ensures
            ({
                let b = seq![header] + size + reliable + order + fragment + payload + rest;
                let o = 3 + reliable.len();
                let f = o + order.len();
                let p = f + fragment.len();
                &&& b.len() == p + payload.len() + rest.len()
                &&& b[0] == header
                &&& b.skip(1) == size + (reliable + (order + (fragment + (payload + rest))))
                &&& b.skip(3) == reliable + (order + (fragment + (payload + rest)))
                &&& b.skip(o as int) == order + (fragment + (payload + rest))
                &&& b.skip(f as int) == fragment + (payload + rest)
                &&& b.subrange(p as int, (p + payload.len()) as int) == payload
                &&& (seq![header] + size + reliable + order + fragment + payload).len() == p
                    + payload.len()
            }),
    {
        let b = seq![header] + size + reliable + order + fragment + payload + rest;
        let o = 3 + reliable.len();
        let f = o + order.len();
        let p = f + fragment.len();
        assert(b.skip(1) =~= size + (reliable + (order + (fragment + (payload + rest)))));
        assert(b.skip(3) =~= reliable + (order + (fragment + (payload + rest))));
        assert(b.skip(o as int) =~= order + (fragment + (payload + rest)));
        assert(b.skip(f as int) =~= fragment + (payload + rest));
        assert(b.subrange(p as int, (p + payload.len()) as int) =~= payload);
    }

    /// Reading back the ordering index and channel gives them, whatever
    /// follows.
    proof fn lemma_order_part(index: u32, channel: u8, rest: Seq<u8>)
        requires
            index < INDEX_LIMIT,
        ensures
            u24_from_le(u24_le(index).push(channel) + rest) == index,
            (u24_le(index).push(channel) + rest)[3] == channel,
            u24_le(index).push(channel).len() == 4,
    {
        lemma_u24_round_trip(index, seq![channel] + rest);
        assert(u24_le(index).push(channel) + rest =~= u24_le(index) + (seq![channel] + rest));
    }

    /// Reading back a fragment descriptor gives it, whatever follows.
    proof fn lemma_fragment_part(f: Fragment, rest: Seq<u8>)
        ensures
            ({
                let b = u32_be(f.compound_size) + u16_be(f.compound_id) + u32_be(f.index) + rest;
                &&& u32_from_be(b) == f.compound_size
                &&& u16_from_be(b.skip(4)) == f.compound_id
                &&& u32_from_be(b.skip(6)) == f.index
                &&& (u32_be(f.compound_size) + u16_be(f.compound_id) + u32_be(f.index)).len() == 10
            }),
    {
        let b = u32_be(f.compound_size) + u16_be(f.compound_id) + u32_be(f.index) + rest;
        let t2 = u32_be(f.index) + rest;
        let t1 = u16_be(f.compound_id) + t2;
        lemma_u32_round_trip(f.compound_size, t1);
        lemma_u16_round_trip(f.compound_id, t2);
        lemma_u32_round_trip(f.index, rest);
        assert(b =~= u32_be(f.compound_size) + t1);
        assert(b.skip(4) =~= t1);
        assert(b.skip(6) =~= t2);
    }

    /// The number of bytes the frame takes on the wire.
    pub open spec fn size(self) -> int {
        payload_offset(self.reliability, self.fragment is Some) + self.payload.len()
    }

    /// A frame takes at least three bytes and at most `MAX_FRAME`: its
    /// header and its payload.
    pub proof fn lemma_encoding_len(self)
        requires
            self.wf(),
        ensures
            3 <= self.encoding().len() <= MAX_FRAME,
            self.encoding().len() == self.size(),
            self.reliable_part().len() <= 3,
            self.order_part().len() <= 4,
            self.fragment_part().len() <= 10,
    {
    }

    /// Reading back a written frame gives the frame, whatever follows it.
    pub proof fn lemma_round_trip(self, rest: Seq<u8>)
        requires
            self.wf(),
        ensures
            Self::parse(self.encoding() + rest) == Ok::<(FrameView, int), FrameError>(
                (self, self.encoding().len() as int),
            ),
            3 <= self.encoding().len() <= MAX_FRAME,
    {
        let mode = self.reliability;
        let size = u16_be((self.payload.len() * 8) as u16);
        let b = self.encoding() + rest;
        let tail = self.payload + rest;
        Self::lemma_layout(
            self.header(),
            size,
            self.reliable_part(),
            self.order_part(),
            self.fragment_part(),
            self.payload,
            rest,
        );
        mode.lemma_tag_round_trip();
        lemma_u16_round_trip(
            (self.payload.len() * 8) as u16,
            self.reliable_part() + (self.order_part() + (self.fragment_part() + tail)),
        );
        if mode.is_reliable() {
            lemma_u24_round_trip(
                self.reliable_index,
                self.order_part() + (self.fragment_part() + tail),
            );
        }
        if mode.has_channel() {
            Self::lemma_order_part(self.order_index, self.channel, self.fragment_part() + tail);
            assert(b[order_offset(mode) + 3] == b.skip(order_offset(mode))[3]);
        }
        match self.fragment {
            Some(f) => {
                Self::lemma_fragment_part(f, tail);
                assert(self.fragment_part() + tail =~= u32_be(f.compound_size) + u16_be(
                    f.compound_id,
                ) + u32_be(f.index) + tail);
                let at = fragment_offset(mode);
                assert(b.skip(at + 4) =~= b.skip(at).skip(4));
                assert(b.skip(at + 6) =~= b.skip(at).skip(6));
            },
            None => {},
        }
        assert(self.reliable_part().len() == order_offset(mode) - 3);
        assert(self.order_part().len() == fragment_offset(mode) - order_offset(mode));
        assert(self.fragment_part().len() == payload_offset(mode, self.fragment is Some)
            - fragment_offset(mode));
        assert(b[0] / 32 == mode.tag());
        assert(((b[0] / 16) % 2 == 1) == (self.fragment is Some));
        assert((u16_from_be(b.skip(1)) + 7) / 8 == self.payload.len());
    }
}

impl Frame {
    /// Whether the frame can be written: the payload fits, the indices fit
    /// in 24 bits, the channel is one of the 32, and the fields the mode
    /// does not call for are zero.
    pub fn is_valid(&self) -> (ok: bool)
        ensures
            ok == self@.wf(),
    {
        let has_channel = self.reliability.ordered() || self.reliability.sequenced();
        self.payload.len() <= MAX_PAYLOAD && self.reliable_index < INDEX_LIMIT && self.order_index
            < INDEX_LIMIT && self.channel < CHANNELS && (self.reliability.reliable()
            || self.reliable_index == 0) && (has_channel || (self.order_index == 0 && self.channel
            == 0))
    }

    /// The number of bytes the frame takes on the wire.
    pub fn size(&self) -> (n: usize)
        requires
            self@.wf(),
        ensures
            n == self@.size(),
            3 <= n <= MAX_FRAME,
    {
        let mut header: usize = 3;
        if self.reliability.reliable() {
            header += 3;
        }
        if self.reliability.ordered() || self.reliability.sequenced() {
            header += 4;
        }
        if self.fragment.is_some() {
            header += 10;
        }
        header + self.payload.len()
    }

    /// A copy of the frame.
    pub fn copy(&self) -> (out: Frame)
        ensures
            out@ == self@,
    {
        Frame {
            reliability: self.reliability,
            reliable_index: self.reliable_index,
            order_index: self.order_index,
            channel: self.channel,
            fragment: self.fragment,
            payload: vstd::slice::slice_to_vec(self.payload.as_slice()),
        }
    }

    /// Appends the bytes of the frame.
    pub(crate) fn write_to(&self, w: &mut ByteWriter)
        requires
            self@.wf(),
            writer_bytes(*old(w)).len() + MAX_FRAME <= isize::MAX,
        ensures
            writer_bytes(*final(w)) == writer_bytes(*old(w)) + self@.encoding(),
            self@.encoding().len() <= MAX_FRAME,
    {
        let ghost start = writer_bytes(*w);
        let ghost v = self@;
        proof {
            v.lemma_encoding_len();
        }
        let flag: u8 = if self.fragment.is_some() {
            16
        } else {
            0
        };
        write_u8(w, self.reliability.to_byte() * 32 + flag);
        write_u16(w, (self.payload.len() * 8) as u16);
        let ghost s1 = seq![v.header()] + u16_be((v.payload.len() * 8) as u16);
        assert(writer_bytes(*w) =~= start + s1);
        if self.reliability.reliable() {
            write_u24_le(w, self.reliable_index);
        }
        let ghost s2 = s1 + v.reliable_part();
        assert(writer_bytes(*w) =~= start + s2);
        if self.reliability.ordered() || self.reliability.sequenced() {
            write_u24_le(w, self.order_index);
            write_u8(w, self.channel);
        }
        let ghost s3 = s2 + v.order_part();
        assert(writer_bytes(*w) =~= start + s3);
        match self.fragment {
            Some(f) => {
                write_u32(w, f.compound_size);
                write_u16(w, f.compound_id);
                write_u32(w, f.index);
            },
            None => {},
        }
        let ghost s4 = s3 + v.fragment_part();
        assert(writer_bytes(*w) =~= start + s4);
        write_bytes(w, self.payload.as_slice());
        assert(writer_bytes(*w) =~= start + (s4 + v.payload));
    }

    /// Consumes the reliable index, if frames of mode `mode` carry one.
    fn read_reliable_index(r: &mut ByteReader, mode: Reliability) -> (res: Option<u32>)
        ensures
            match res {
                Some(index) => {
                    &&& reader_bytes(*old(r)).len() >= order_offset(mode) - 3
                    &&& index == if mode.is_reliable() {
                        u24_from_le(reader_bytes(*old(r)))
                    } else {
                        0
                    }
                    &&& reader_bytes(*final(r)) == reader_bytes(*old(r)).skip(
                        order_offset(mode) - 3,
                    )
                },
                None => reader_bytes(*old(r)).len() < order_offset(mode) - 3,
            },
    {
        if mode.reliable() {
            read_u24_le(r)
        } else {
            assert(reader_bytes(*r).skip(0) =~= reader_bytes(*r));
            Some(0)
        }
    }

    /// Consumes the ordering index and channel, if frames of mode `mode`
    /// carry them.
    fn read_order(r: &mut ByteReader, mode: Reliability) -> (res: Option<(u32, u8)>)
        ensures
            match res {
                Some((index, channel)) => {
                    &&& reader_bytes(*old(r)).len() >= fragment_offset(mode) - order_offset(mode)
                    &&& index == if mode.has_channel() {
                        u24_from_le(reader_bytes(*old(r)))
                    } else {
                        0
                    }
                    &&& channel == if mode.has_channel() {
                        reader_bytes(*old(r))[3]
                    } else {
                        0
                    }
                    &&& reader_bytes(*final(r)) == reader_bytes(*old(r)).skip(
                        fragment_offset(mode) - order_offset(mode),
                    )
                },
                None => reader_bytes(*old(r)).len() < fragment_offset(mode) - order_offset(mode),
            },
    {
        let ghost c = reader_bytes(*r);
        if mode.ordered() || mode.sequenced() {
            if reader_len(r) < 4 {
                return None;
            }
            match (read_u24_le(r), read_u8(r)) {
                (Some(index), Some(channel)) => {
                    assert(reader_bytes(*r) =~= c.skip(4));
                    Some((index, channel))
                },
                _ => None,
            }
        } else {
            assert(c.skip(0) =~= c);
            Some((0, 0))
        }
    }

    /// Consumes the fragment descriptor, if there is one.
    fn read_fragment(r: &mut ByteReader, fragmented: bool) -> (res: Option<Option<Fragment>>)
        ensures
            match res {
                Some(fragment) => {
                    &&& fragmented ==> reader_bytes(*old(r)).len() >= 10
                    &&& fragment == if fragmented {
                        Some(
                            Fragment {
                                compound_size: u32_from_be(reader_bytes(*old(r))),
                                compound_id: u16_from_be(reader_bytes(*old(r)).skip(4)),
                                index: u32_from_be(reader_bytes(*old(r)).skip(6)),
                            },
                        )
                    } else {
                        None
                    }
                    &&& reader_bytes(*final(r)) == reader_bytes(*old(r)).skip(
                        if fragmented {
                            10int
                        } else {
                            0int
                        },
                    )
                },
                None => fragmented && reader_bytes(*old(r)).len() < 10,
            },
    {
        let ghost c = reader_bytes(*r);
        if fragmented {
            if reader_len(r) < 10 {
                return None;
            }
            match (read_u32(r), read_u16(r), read_u32(r)) {
                (Some(compound_size), Some(compound_id), Some(index)) => {
                    assert(c.skip(4).skip(2) =~= c.skip(6));
                    assert(reader_bytes(*r) =~= c.skip(10));
                    Some(Some(Fragment { compound_size, compound_id, index }))
                },
                _ => None,
            }
        } else {
            assert(c.skip(0) =~= c);
            Some(None)
        }
    }

    /// Consumes the frame that the reader's bytes start with.
    #[verifier::rlimit(40)]
    pub(crate) fn read_from(r: &mut ByteReader) -> (res: Result<Frame, FrameError>)
        ensures
            match FrameView::parse(reader_bytes(*old(r))) {
                Ok((frame, used)) => res matches Ok(got) && got@ == frame && reader_bytes(
                    *final(r),
                ) == reader_bytes(*old(r)).skip(used),
                Err(e) => res matches Err(got) && got == e,
            },
    {
        let ghost b = reader_bytes(*r);
        if reader_len(r) < 3 {
            return Err(FrameError::Truncated);
        }
        let (header, bits) = match (read_u8(r), read_u16(r)) {
            (Some(header), Some(bits)) => (header, bits),
            _ => { return Err(FrameError::Truncated); },
        };
        assert(reader_bytes(*r) =~= b.skip(3));
        let mode = match Reliability::from_byte(header / 32) {
            Some(mode) => mode,
            None => { return Err(FrameError::BadReliability); },
        };
        let fragmented = (header / 16) % 2 == 1;
        let size: usize = (bits as usize + 7) / 8;
        let ghost o = order_offset(mode);
        let ghost f = fragment_offset(mode);
        let ghost p = payload_offset(mode, fragmented);
        let reliable_index = match Self::read_reliable_index(r, mode) {
            Some(index) => index,
            None => { return Err(FrameError::Truncated); },
        };
        assert(reader_bytes(*r) =~= b.skip(o));
        let (order_index, channel) = match Self::read_order(r, mode) {
            Some(order) => order,
            None => { return Err(FrameError::Truncated); },
        };
        assert(reader_bytes(*r) =~= b.skip(f));
        assert(mode.has_channel() ==> b.skip(o)[3] == b[o + 3]);
        let fragment = match Self::read_fragment(r, fragmented) {
            Some(fragment) => fragment,
            None => { return Err(FrameError::Truncated); },
        };
        assert(reader_bytes(*r) =~= b.skip(p));
        proof {
            if fragmented {
                assert(b.skip(f).skip(4) =~= b.skip(f + 4));
                assert(b.skip(f).skip(6) =~= b.skip(f + 6));
            }
        }
        if channel >= CHANNELS {
            return Err(FrameError::BadChannel);
        }
        if reader_len(r) < size {
            return Err(FrameError::Truncated);
        }
        match read_bytes(r, size) {
            Some(payload) => {
                assert(payload@ =~= b.subrange(p, p + size));
                assert(reader_bytes(*r) =~= b.skip(p + size));
                Ok(Frame { reliability: mode, reliable_index, order_index, channel, fragment, payload })
            },
            None => Err(FrameError::Truncated),
        }
    }
}

} // verus!
