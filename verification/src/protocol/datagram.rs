//! Online datagrams: a flag byte, a 24-bit little-endian sequence number,
//! and frames back to back until the datagram ends.
//!
//! In the flag byte, bit 7 marks an online datagram, bits 6 and 5 mark
//! acknowledgements and negative acknowledgements, and bit 2 tells that the
//! datagram carries a fragment.

use crate::protocol::frame::Frame;
use crate::protocol::frame::FrameError;
use crate::protocol::frame::FrameView;
use crate::protocol::frame::INDEX_LIMIT;
use crate::protocol::frame::MAX_FRAME;
use crate::protocol::stream::lemma_u24_round_trip;
use crate::protocol::stream::read_u24_le;
use crate::protocol::stream::read_u8;
use crate::protocol::stream::reader_bytes;
use crate::protocol::stream::reader_from;
use crate::protocol::stream::reader_len;
use crate::protocol::stream::u24_from_le;
use crate::protocol::stream::u24_le;
use crate::protocol::stream::write_u24_le;
use crate::protocol::stream::write_u8;
use crate::protocol::stream::writer_bytes;
use crate::protocol::stream::writer_new;
use crate::protocol::stream::writer_to_vec;
use vstd::prelude::*;

verus! {

/// The largest number of frames a datagram is given.
pub const MAX_FRAMES: usize = 0xffff;

/// The flag byte of a datagram that carries no fragment.
pub const FLAG_DATA: u8 = 0x80;

/// The flag byte of a datagram that carries a fragment.
pub const FLAG_SPLIT: u8 = 0x84;

/// A datagram of frames.
#[derive(Debug, Clone, PartialEq, Eq)]
pub struct Datagram {
    pub sequence: u32,
    pub frames: Vec<Frame>,
}

/// A datagram as a mathematical value.
pub struct DatagramView {
    pub sequence: u32,
    pub frames: Seq<FrameView>,
}

/// The frames of a vector as mathematical values.
pub open spec fn frame_views(frames: Seq<Frame>) -> Seq<FrameView> {
    Seq::new(frames.len(), |i: int| frames[i]@)
}

impl View for Datagram {
    type V = DatagramView;

    open spec fn view(&self) -> DatagramView {
        DatagramView { sequence: self.sequence, frames: frame_views(self.frames@) }
    }
}

/// The bytes of `frames`, one after the other.
pub open spec fn frames_encoding(frames: Seq<FrameView>) -> Seq<u8>
    decreases frames.len(),
{
    if frames.len() == 0 {
        Seq::empty()
    } else {
        frames_encoding(frames.drop_last()) + frames.last().encoding()
    }
}

/// The frames that `b` is made of, read back to back until `b` ends.
pub open spec fn parse_frames(b: Seq<u8>) -> Result<Seq<FrameView>, FrameError>
    decreases b.len(),
{
    if b.len() == 0 {
        Ok(Seq::empty())
    } else {
        match FrameView::parse(b) {
            Err(e) => Err(e),
            Ok((frame, used)) => match parse_frames(b.skip(used)) {
                Err(e) => Err(e),
                Ok(frames) => Ok(seq![frame] + frames),
            },
        }
    }
}

/// Whether every frame of `frames` is well formed.
pub open spec fn all_wf(frames: Seq<FrameView>) -> bool {
    forall|i: int| 0 <= i < frames.len() ==> (#[trigger] frames[i]).wf()
}

/// The bytes of a first frame followed by more are the first frame's bytes
/// followed by the bytes of the others.
pub proof fn lemma_frames_encoding_front(first: FrameView, more: Seq<FrameView>)
    ensures
        frames_encoding(seq![first] + more) == first.encoding() + frames_encoding(more),
    decreases more.len(),
{
    let all = seq![first] + more;
    if more.len() == 0 {
        assert(all.drop_last() =~= Seq::<FrameView>::empty());
        assert(first.encoding() + frames_encoding(more) =~= first.encoding());
        assert(frames_encoding(all.drop_last()) + first.encoding() =~= first.encoding());
    } else {
        assert(all.drop_last() =~= seq![first] + more.drop_last());
        assert(all.last() == more.last());
        lemma_frames_encoding_front(first, more.drop_last());
        assert((first.encoding() + frames_encoding(more.drop_last())) + more.last().encoding()
            =~= first.encoding() + (frames_encoding(more.drop_last()) + more.last().encoding()));
    }
}

/// Reading back the bytes of well-formed frames gives the same frames in
/// the same order.
pub proof fn lemma_frames_round_trip(frames: Seq<FrameView>)
    requires
        all_wf(frames),
    ensures
        parse_frames(frames_encoding(frames)) == Ok::<Seq<FrameView>, FrameError>(frames),
    decreases frames.len(),
{
    if frames.len() == 0 {
        assert(frames =~= Seq::<FrameView>::empty());
    } else {
        let first = frames[0];
        let more = frames.skip(1);
        assert(frames =~= seq![first] + more);
        assert(all_wf(more)) by {
            assert forall|i: int| 0 <= i < more.len() implies (#[trigger] more[i]).wf() by {
                assert(frames[i + 1].wf());
            }
        }
        lemma_frames_encoding_front(first, more);
        let rest = frames_encoding(more);
        first.lemma_round_trip(rest);
        lemma_frames_round_trip(more);
        let b = first.encoding() + rest;
        assert(frames_encoding(frames) == b);
        assert(b.skip(first.encoding().len() as int) =~= rest);
        assert(b.len() > 0);
        assert(parse_frames(b) == Ok::<Seq<FrameView>, FrameError>(seq![first] + more));
    }
}

impl DatagramView {
    /// The sequence number fits in 24 bits, there are not too many frames,
    /// and every frame is well formed.
    pub open spec fn wf(self) -> bool {
        &&& self.sequence < INDEX_LIMIT
        &&& self.frames.len() <= MAX_FRAMES
        &&& all_wf(self.frames)
    }

    /// Whether one of the frames is a fragment.
    pub open spec fn has_fragment(self) -> bool {
        exists|i: int| 0 <= i < self.frames.len() && (#[trigger] self.frames[i]).fragment is Some
    }

    /// The flag byte.
    pub open spec fn flags(self) -> u8 {
        if self.has_fragment() {
            FLAG_SPLIT
        } else {
            FLAG_DATA
        }
    }

    /// The bytes of the datagram.
    pub open spec fn encoding(self) -> Seq<u8> {
        seq![self.flags()] + u24_le(self.sequence) + frames_encoding(self.frames)
    }

    /// The datagram that `b` is.
    pub open spec fn parse(b: Seq<u8>) -> Result<DatagramView, FrameError> {
        if b.len() < 4 {
            Err(FrameError::Truncated)
        } else if b[0] < 0x80 {
            Err(FrameError::NotOnline)
        } else if b[0] >= 0xa0 {
            Err(FrameError::WrongKind)
        } else {
            match parse_frames(b.skip(4)) {
                Err(e) => Err(e),
                Ok(frames) => Ok(DatagramView { sequence: u24_from_le(b.skip(1)), frames }),
            }
        }
    }

    /// Encoding a datagram and decoding it gives the same sequence number
    /// and the same frames in the same order.
    pub proof fn lemma_round_trip(self)
        requires
            self.wf(),
        ensures
            Self::parse(self.encoding()) == Ok::<DatagramView, FrameError>(self),
    {
        let b = self.encoding();
        let body = frames_encoding(self.frames);
        lemma_u24_round_trip(self.sequence, body);
        lemma_frames_round_trip(self.frames);
        assert(b.skip(1) =~= u24_le(self.sequence) + body);
        assert(b.skip(4) =~= body);
    }
}

impl Datagram {
    /// Whether one of the frames is a fragment.
    pub fn has_fragment(&self) -> (yes: bool)
        ensures
            yes == self@.has_fragment(),
    {
        let mut i: usize = 0;
        while i < self.frames.len()
            invariant
                i <= self.frames@.len(),
                forall|k: int| 0 <= k < i ==> (#[trigger] self@.frames[k]).fragment is None,
            decreases self.frames@.len() - i,
        {
            if self.frames[i].fragment.is_some() {
                assert(self@.frames[i as int].fragment is Some);
                return true;
            }
            i += 1;
        }
        false
    }

    /// Whether the datagram can be written: the sequence number fits in 24
    /// bits, there are not too many frames, and every frame is well formed.
    pub fn is_valid(&self) -> (ok: bool)
        ensures
            ok == self@.wf(),
    {
        if self.sequence >= INDEX_LIMIT || self.frames.len() > MAX_FRAMES {
            return false;
        }
        let mut i: usize = 0;
        while i < self.frames.len()
            invariant
                i <= self.frames@.len(),
                forall|k: int| 0 <= k < i ==> (#[trigger] self@.frames[k]).wf(),
            decreases self.frames@.len() - i,
        {
            if !self.frames[i].is_valid() {
                assert(!self@.frames[i as int].wf());
                return false;
            }
            i += 1;
        }
        true
    }

    /// The bytes of the datagram.
    pub fn to(&self) -> (out: Vec<u8>)
        requires
            self@.wf(),
        ensures
            out@ == self@.encoding(),
    {
        let flags = if self.has_fragment() {
            FLAG_SPLIT
        } else {
            FLAG_DATA
        };
        let mut w = writer_new();
        write_u8(&mut w, flags);
        write_u24_le(&mut w, self.sequence);
        let ghost head = seq![self@.flags()] + u24_le(self.sequence);
        assert(writer_bytes(w) =~= head);
        assert(self@.frames.take(0) =~= Seq::<FrameView>::empty());
        let mut i: usize = 0;
        while i < self.frames.len()
            invariant
                self@.wf(),
                i <= self.frames@.len(),
                head.len() == 4,
                writer_bytes(w) == head + frames_encoding(self@.frames.take(i as int)),
                writer_bytes(w).len() <= 4 + i * MAX_FRAME,
            decreases self.frames@.len() - i,
        {
            let ghost before = self@.frames.take(i as int);
            assert(self@.frames[i as int].wf());
            self.frames[i].write_to(&mut w);
            i += 1;
            proof {
                let now = self@.frames.take(i as int);
                assert(now.drop_last() =~= before);
                assert(now.last() == self@.frames[i - 1]);
                assert(writer_bytes(w) =~= head + frames_encoding(now));
            }
        }
        assert(self@.frames.take(i as int) =~= self@.frames);
        writer_to_vec(&w)
    }

    /// Reads a datagram of frames.
    pub fn recv(bytes: &[u8]) -> (res: Result<Datagram, FrameError>)
        ensures
            match DatagramView::parse(bytes@) {
                Ok(datagram) => res matches Ok(got) && got@ == datagram,
                Err(e) => res matches Err(got) && got == e,
            },
    {
        let mut r = reader_from(bytes);
        if reader_len(&r) < 4 {
            return Err(FrameError::Truncated);
        }
        let (flags, sequence) = match (read_u8(&mut r), read_u24_le(&mut r)) {
            (Some(flags), Some(sequence)) => (flags, sequence),
            _ => { return Err(FrameError::Truncated); },
        };
        if flags < 0x80 {
            return Err(FrameError::NotOnline);
        }
        if flags >= 0xa0 {
            return Err(FrameError::WrongKind);
        }
        assert(reader_bytes(r) =~= bytes@.skip(4));
        let ghost body = bytes@.skip(4);
        let mut frames: Vec<Frame> = Vec::new();
        assert(frame_views(frames@) =~= Seq::<FrameView>::empty());
        assert(sequence == u24_from_le(bytes@.skip(1)));
        while reader_len(&r) > 0
            invariant
                DatagramView::parse(bytes@) == match parse_frames(body) {
                    Ok(all) => Ok::<DatagramView, FrameError>(
                        DatagramView { sequence, frames: all },
                    ),
                    Err(e) => Err::<DatagramView, FrameError>(e),
                },
                parse_frames(body) == match parse_frames(reader_bytes(r)) {
                    Ok(more) => Ok::<Seq<FrameView>, FrameError>(frame_views(frames@) + more),
                    Err(e) => Err::<Seq<FrameView>, FrameError>(e),
                },
            decreases reader_bytes(r).len(),
        {
            let ghost left = reader_bytes(r);
            let ghost done = frame_views(frames@);
            match Frame::read_from(&mut r) {
                Ok(frame) => {
                    frames.push(frame);
                    proof {
                        let used = FrameView::parse(left)->Ok_0.1;
                        assert(frame_views(frames@) =~= done.push(frame@));
                        match parse_frames(left.skip(used)) {
                            Ok(more) => {
                                assert(done + (seq![frame@] + more) =~= done.push(frame@) + more);
                            },
                            Err(_) => {},
                        }
                    }
                },
                Err(e) => {
                    assert(parse_frames(left) == Err::<Seq<FrameView>, FrameError>(e));
                    return Err(e);
                },
            }
        }
        assert(parse_frames(reader_bytes(r)) == Ok::<Seq<FrameView>, FrameError>(Seq::empty()));
        assert(frame_views(frames@) + Seq::<FrameView>::empty() =~= frame_views(frames@));
        Ok(Datagram { sequence, frames })
    }
}

} // verus!
