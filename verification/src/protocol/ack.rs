//! Acknowledgements: sets of datagram sequence numbers, written as runs.
//!
//! An acknowledgement starts with a flag byte whose bit 6 marks a positive
//! and whose bit 5 marks a negative acknowledgement, and the number of runs
//! as a big-endian 16-bit integer. A run of one number is the byte 1 and the
//! number; a longer run is the byte 0, its first and its last number.
//! Numbers are 24-bit little-endian.

use crate::protocol::frame::FrameError;
use crate::protocol::frame::INDEX_LIMIT;
use crate::protocol::stream::lemma_u16_round_trip;
use crate::protocol::stream::lemma_u24_round_trip;
use crate::protocol::stream::read_u16;
use crate::protocol::stream::read_u24_le;
use crate::protocol::stream::read_u8;
use crate::protocol::stream::reader_bytes;
use crate::protocol::stream::reader_from;
use crate::protocol::stream::reader_len;
use crate::protocol::stream::u16_be;
use crate::protocol::stream::u16_from_be;
use crate::protocol::stream::u24_from_le;
use crate::protocol::stream::u24_le;
use crate::protocol::stream::write_u16;
use crate::protocol::stream::write_u24_le;
use crate::protocol::stream::write_u8;
use crate::protocol::stream::writer_bytes;
use crate::protocol::stream::writer_new;
use crate::protocol::stream::writer_to_vec;
use binary_util::io::ByteReader;
use vstd::prelude::*;

verus! {

/// The flag byte of a positive acknowledgement.
pub const FLAG_ACK: u8 = 0xc0;

/// The flag byte of a negative acknowledgement.
pub const FLAG_NACK: u8 = 0xa0;

/// The largest number of runs an acknowledgement can hold.
pub const MAX_RUNS: usize = 0xffff;

/// Whether the numbers arrived or are missing.
#[derive(Debug, Clone, Copy, PartialEq, Eq, Structural)]
pub enum AckKind {
    /// The numbers arrived.
    Ack,
    /// The numbers are missing.
    Nack,
}

/// The sequence numbers from `start` to `end`, both included.
#[derive(Debug, Clone, Copy, PartialEq, Eq, Structural)]
pub struct Run {
    pub start: u32,
    pub end: u32,
}

impl Run {
    /// The run is not inverted and its numbers fit in 24 bits.
    pub open spec fn wf(self) -> bool {
        self.start <= self.end < INDEX_LIMIT
    }

    /// Whether `x` is one of the numbers of the run.
    pub open spec fn holds(self, x: u32) -> bool {
        self.start <= x <= self.end
    }

    /// The bytes of the run.
    pub open spec fn encoding(self) -> Seq<u8> {
        if self.start == self.end {
            seq![1u8] + u24_le(self.start)
        } else {
            seq![0u8] + u24_le(self.start) + u24_le(self.end)
        }
    }

    /// The run that `b` starts with and the number of bytes it takes.
    pub open spec fn parse(b: Seq<u8>) -> Result<(Run, int), FrameError> {
        if b.len() < 1 {
            Err(FrameError::Truncated)
        } else if b[0] != 0 {
            if b.len() < 4 {
                Err(FrameError::Truncated)
            } else {
                Ok((Run { start: u24_from_le(b.skip(1)), end: u24_from_le(b.skip(1)) }, 4))
            }
        } else if b.len() < 7 {
            Err(FrameError::Truncated)
        } else {
            Ok((Run { start: u24_from_le(b.skip(1)), end: u24_from_le(b.skip(4)) }, 7))
        }
    }

    /// Reading back a written run gives the run, whatever follows it.
    pub proof fn lemma_round_trip(self, rest: Seq<u8>)
        requires
            self.wf(),
        ensures
            Self::parse(self.encoding() + rest) == Ok::<(Run, int), FrameError>(
                (self, self.encoding().len() as int),
            ),
            self.encoding().len() == 4 || self.encoding().len() == 7,
    {
        let b = self.encoding() + rest;
        if self.start == self.end {
            lemma_u24_round_trip(self.start, rest);
            assert(b.skip(1) =~= u24_le(self.start) + rest);
        } else {
            lemma_u24_round_trip(self.start, u24_le(self.end) + rest);
            lemma_u24_round_trip(self.end, rest);
            assert(b.skip(1) =~= u24_le(self.start) + (u24_le(self.end) + rest));
            assert(b.skip(4) =~= u24_le(self.end) + rest);
        }
    }

    /// Consumes the run that the reader's bytes start with.
    fn read_from(r: &mut ByteReader) -> (res: Result<Run, FrameError>)
        ensures
            match Self::parse(reader_bytes(*old(r))) {
                Ok((run, used)) => res == Ok::<Run, FrameError>(run) && reader_bytes(*final(r))
                    == reader_bytes(*old(r)).skip(used) && 4 <= used <= reader_bytes(
                    *old(r),
                ).len(),
                Err(e) => res == Err::<Run, FrameError>(e),
            },
    {
        let ghost b = reader_bytes(*r);
        let single = match read_u8(r) {
            Some(flag) => flag != 0,
            None => {
                return Err(FrameError::Truncated);
            },
        };
        if single {
            match read_u24_le(r) {
                Some(start) => {
                    assert(reader_bytes(*r) =~= b.skip(4));
                    Ok(Run { start, end: start })
                },
                None => Err(FrameError::Truncated),
            }
        } else {
            if reader_len(r) < 6 {
                return Err(FrameError::Truncated);
            }
            match (read_u24_le(r), read_u24_le(r)) {
                (Some(start), Some(end)) => {
                    assert(b.skip(1).skip(3) =~= b.skip(4));
                    assert(reader_bytes(*r) =~= b.skip(7));
                    Ok(Run { start, end })
                },
                _ => Err(FrameError::Truncated),
            }
        }
    }
}

/// The bytes of `runs`, one after the other.
pub open spec fn runs_encoding(runs: Seq<Run>) -> Seq<u8>
    decreases runs.len(),
{
    if runs.len() == 0 {
        Seq::empty()
    } else {
        runs_encoding(runs.drop_last()) + runs.last().encoding()
    }
}

/// The first `count` runs that `b` holds.
pub open spec fn parse_runs(b: Seq<u8>, count: nat) -> Result<Seq<Run>, FrameError>
    decreases count,
{
    if count == 0 {
        Ok(Seq::empty())
    } else {
        match Run::parse(b) {
            Err(e) => Err(e),
            Ok((run, used)) => match parse_runs(b.skip(used), (count - 1) as nat) {
                Err(e) => Err(e),
                Ok(more) => Ok(seq![run] + more),
            },
        }
    }
}

/// Whether every run of `runs` is well formed.
pub open spec fn all_runs_wf(runs: Seq<Run>) -> bool {
    forall|i: int| 0 <= i < runs.len() ==> (#[trigger] runs[i]).wf()
}

/// The bytes of a first run followed by more are the first run's bytes
/// followed by the bytes of the others.
pub proof fn lemma_runs_encoding_front(first: Run, more: Seq<Run>)
    ensures
        runs_encoding(seq![first] + more) == first.encoding() + runs_encoding(more),
    decreases more.len(),
{
    let all = seq![first] + more;
    if more.len() == 0 {
        assert(all.drop_last() =~= Seq::<Run>::empty());
        assert(first.encoding() + runs_encoding(more) =~= first.encoding());
        assert(runs_encoding(all.drop_last()) + first.encoding() =~= first.encoding());
    } else {
        assert(all.drop_last() =~= seq![first] + more.drop_last());
        assert(all.last() == more.last());
        lemma_runs_encoding_front(first, more.drop_last());
        assert((first.encoding() + runs_encoding(more.drop_last())) + more.last().encoding()
            =~= first.encoding() + (runs_encoding(more.drop_last()) + more.last().encoding()));
    }
}

/// Reading back written runs gives the same runs in the same order,
/// whatever follows them.
pub proof fn lemma_runs_round_trip(runs: Seq<Run>, rest: Seq<u8>)
    requires
        all_runs_wf(runs),
    ensures
        parse_runs(runs_encoding(runs) + rest, runs.len()) == Ok::<Seq<Run>, FrameError>(runs),
    decreases runs.len(),
{
    if runs.len() == 0 {
        assert(runs =~= Seq::<Run>::empty());
    } else {
        let first = runs[0];
        let more = runs.skip(1);
        assert(runs =~= seq![first] + more);
        assert(all_runs_wf(more)) by {
            assert forall|i: int| 0 <= i < more.len() implies (#[trigger] more[i]).wf() by {
                assert(runs[i + 1].wf());
            }
        }
        lemma_runs_encoding_front(first, more);
        let tail = runs_encoding(more) + rest;
        first.lemma_round_trip(tail);
        lemma_runs_round_trip(more, rest);
        let b = runs_encoding(runs) + rest;
        assert(b =~= first.encoding() + tail);
        assert(b.skip(first.encoding().len() as int) =~= tail);
        assert(parse_runs(b, runs.len()) == Ok::<Seq<Run>, FrameError>(seq![first] + more));
    }
}

/// An acknowledgement.
#[derive(Debug, Clone, PartialEq, Eq)]
pub struct Ack {
    pub kind: AckKind,
    pub runs: Vec<Run>,
}

/// An acknowledgement as a mathematical value.
pub struct AckView {
    pub kind: AckKind,
    pub runs: Seq<Run>,
}

impl View for Ack {
    type V = AckView;

    open spec fn view(&self) -> AckView {
        AckView { kind: self.kind, runs: self.runs@ }
    }
}

impl AckView {
    /// The runs can be counted in sixteen bits and each is well formed.
    pub open spec fn wf(self) -> bool {
        self.runs.len() <= MAX_RUNS && all_runs_wf(self.runs)
    }

    /// The flag byte.
    pub open spec fn flag(self) -> u8 {
        match self.kind {
            AckKind::Ack => FLAG_ACK,
            AckKind::Nack => FLAG_NACK,
        }
    }

    /// The bytes of the acknowledgement.
    pub open spec fn encoding(self) -> Seq<u8> {
        seq![self.flag()] + u16_be(self.runs.len() as u16) + runs_encoding(self.runs)
    }

    /// The acknowledgement that `b` is. Bytes past the last run are
    /// ignored.
    pub open spec fn parse(b: Seq<u8>) -> Result<AckView, FrameError> {
        if b.len() < 3 {
            Err(FrameError::Truncated)
        } else if b[0] < 0x80 {
            Err(FrameError::NotOnline)
        } else if b[0] < 0xa0 {
            Err(FrameError::WrongKind)
        } else {
            match parse_runs(b.skip(3), u16_from_be(b.skip(1)) as nat) {
                Err(e) => Err(e),
                Ok(runs) => Ok(
                    AckView {
                        kind: if b[0] >= 0xc0 {
                            AckKind::Ack
                        } else {
                            AckKind::Nack
                        },
                        runs,
                    },
                ),
            }
        }
    }

    /// Encoding an acknowledgement and decoding it gives it back.
    pub proof fn lemma_round_trip(self)
        requires
            self.wf(),
        ensures
            Self::parse(self.encoding()) == Ok::<AckView, FrameError>(self),
    {
        let b = self.encoding();
        let body = runs_encoding(self.runs);
        lemma_u16_round_trip(self.runs.len() as u16, body);
        lemma_runs_round_trip(self.runs, Seq::<u8>::empty());
        assert(b.skip(1) =~= u16_be(self.runs.len() as u16) + body);
        assert(b.skip(3) =~= body + Seq::<u8>::empty());
    }
}

impl Ack {
    /// Whether the acknowledgement can be written.
    pub fn is_valid(&self) -> (ok: bool)
        ensures
            ok == self@.wf(),
    {
        if self.runs.len() > MAX_RUNS {
            return false;
        }
        let mut i: usize = 0;
        while i < self.runs.len()
            invariant
                i <= self.runs@.len(),
                forall|k: int| 0 <= k < i ==> (#[trigger] self.runs@[k]).wf(),
            decreases self.runs@.len() - i,
        {
            let run = self.runs[i];
            if run.start > run.end || run.end >= INDEX_LIMIT {
                assert(!self.runs@[i as int].wf());
                return false;
            }
            i += 1;
        }
        true
    }

    /// The bytes of the acknowledgement.
    pub fn to(&self) -> (out: Vec<u8>)
        requires
            self@.wf(),
        ensures
            out@ == self@.encoding(),
    {
        let mut w = writer_new();
        write_u8(
            &mut w,
            match self.kind {
                AckKind::Ack => FLAG_ACK,
                AckKind::Nack => FLAG_NACK,
            },
        );
        write_u16(&mut w, self.runs.len() as u16);
        let ghost head = seq![self@.flag()] + u16_be(self.runs@.len() as u16);
        assert(writer_bytes(w) =~= head);
        assert(self.runs@.take(0) =~= Seq::<Run>::empty());
        let mut i: usize = 0;
        while i < self.runs.len()
            invariant
                self@.wf(),
                i <= self.runs@.len(),
                head.len() == 3,
                writer_bytes(w) == head + runs_encoding(self.runs@.take(i as int)),
                writer_bytes(w).len() <= 3 + 7 * i,
            decreases self.runs@.len() - i,
        {
            let ghost before = self.runs@.take(i as int);
            let ghost start = writer_bytes(w);
            let run = self.runs[i];
            assert(self.runs@[i as int].wf());
            if run.start == run.end {
                write_u8(&mut w, 1);
                write_u24_le(&mut w, run.start);
            } else {
                write_u8(&mut w, 0);
                write_u24_le(&mut w, run.start);
                write_u24_le(&mut w, run.end);
            }
            assert(writer_bytes(w) =~= start + run.encoding());
            i += 1;
            proof {
                let now = self.runs@.take(i as int);
                assert(now.drop_last() =~= before);
                assert(now.last() == run);
                assert(writer_bytes(w) =~= head + runs_encoding(now));
            }
        }
        assert(self.runs@.take(i as int) =~= self.runs@);
        writer_to_vec(&w)
    }

    /// Reads an acknowledgement.
    pub fn recv(bytes: &[u8]) -> (res: Result<Ack, FrameError>)
        ensures
            match AckView::parse(bytes@) {
                Ok(ack) => res matches Ok(got) && got@ == ack,
                Err(e) => res matches Err(got) && got == e,
            },
    {
        let mut r = reader_from(bytes);
        if reader_len(&r) < 3 {
            return Err(FrameError::Truncated);
        }
        let (flag, count) = match (read_u8(&mut r), read_u16(&mut r)) {
            (Some(flag), Some(count)) => (flag, count),
            _ => {
                return Err(FrameError::Truncated);
            },
        };
        if flag < 0x80 {
            return Err(FrameError::NotOnline);
        }
        if flag < 0xa0 {
            return Err(FrameError::WrongKind);
        }
        let kind = if flag >= 0xc0 {
            AckKind::Ack
        } else {
            AckKind::Nack
        };
        assert(reader_bytes(r) =~= bytes@.skip(3));
        let ghost body = bytes@.skip(3);
        let mut runs: Vec<Run> = Vec::new();
        let mut i: u16 = 0;
        assert(runs@ + Seq::<Run>::empty() =~= runs@);
        while i < count
            invariant
                i <= count,
                runs@.len() == i,
                AckView::parse(bytes@) == match parse_runs(body, count as nat) {
                    Ok(all) => Ok::<AckView, FrameError>(AckView { kind, runs: all }),
                    Err(e) => Err::<AckView, FrameError>(e),
                },
                parse_runs(body, count as nat) == match parse_runs(
                    reader_bytes(r),
                    (count - i) as nat,
                ) {
                    Ok(more) => Ok::<Seq<Run>, FrameError>(runs@ + more),
                    Err(e) => Err::<Seq<Run>, FrameError>(e),
                },
            decreases count - i,
        {
            let ghost left = reader_bytes(r);
            let ghost done = runs@;
            match Run::read_from(&mut r) {
                Ok(run) => {
                    runs.push(run);
                    proof {
                        let used = Run::parse(left)->Ok_0.1;
                        match parse_runs(left.skip(used), (count - i - 1) as nat) {
                            Ok(more) => {
                                assert(done + (seq![run] + more) =~= done.push(run) + more);
                            },
                            Err(_) => {},
                        }
                    }
                },
                Err(e) => {
                    assert(parse_runs(left, (count - i) as nat) == Err::<Seq<Run>, FrameError>(e));
                    return Err(e);
                },
            }
            i += 1;
        }
        assert(runs@ + Seq::<Run>::empty() =~= runs@);
        Ok(Ack { kind, runs })
    }
}

/// Whether one of `runs` holds `x`.
pub open spec fn covered(runs: Seq<Run>, x: u32) -> bool {
    exists|i: int| 0 <= i < runs.len() && (#[trigger] runs[i]).holds(x)
}

/// Whether the runs are in ascending order with a gap between any two: no
/// two could be written as one.
pub open spec fn separated(runs: Seq<Run>) -> bool {
    forall|i: int, j: int| 0 <= i < j < runs.len() ==> runs[i].end + 1 < runs[j].start
}

/// Whether `numbers` is in strictly ascending order.
pub open spec fn ascending(numbers: Seq<u32>) -> bool {
    forall|i: int, j: int| 0 <= i < j < numbers.len() ==> numbers[i] < numbers[j]
}

/// Writes numbers in ascending order as runs: the fewest runs that hold
/// exactly these numbers.
pub fn runs_of(numbers: &Vec<u32>) -> (runs: Vec<Run>)
    requires
        ascending(numbers@),
    ensures
        separated(runs@),
        forall|i: int| 0 <= i < runs@.len() ==> (#[trigger] runs@[i]).start <= runs@[i].end,
        forall|x: u32| covered(runs@, x) <==> numbers@.contains(x),
        runs@.len() <= numbers@.len(),
{
    let mut runs: Vec<Run> = Vec::new();
    if numbers.len() == 0 {
        return runs;
    }
    let mut start: u32 = numbers[0];
    let mut end: u32 = numbers[0];
    let mut i: usize = 1;
    assert(numbers@.contains(numbers@[0]));
    while i < numbers.len()
        invariant
            1 <= i <= numbers@.len(),
            ascending(numbers@),
            separated(runs@),
            runs@.len() < i,
            start <= end,
            end == numbers@[i - 1],
            forall|k: int| 0 <= k < runs@.len() ==> (#[trigger] runs@[k]).start <= runs@[k].end,
            forall|k: int| 0 <= k < runs@.len() ==> (#[trigger] runs@[k]).end + 1 < start,
            forall|k: int|
                0 <= k < runs@.len() ==> forall|x: u32|
                    (#[trigger] runs@[k]).holds(x) ==> numbers@.contains(x),
            forall|x: u32| start <= x <= end ==> #[trigger] numbers@.contains(x),
            forall|k: int|
                0 <= k < i ==> covered(runs@, #[trigger] numbers@[k]) || start <= numbers@[k]
                    <= end,
        decreases numbers@.len() - i,
    {
        let next = numbers[i];
        assert(numbers@[i - 1] < numbers@[i as int]);
        assert(numbers@.contains(numbers@[i as int]));
        let ghost before = runs@;
        if next == end + 1 {
            end = next;
        } else {
            runs.push(Run { start, end });
            proof {
                let last = before.len() as int;
                assert forall|a: int, b: int| 0 <= a < b < runs@.len() implies runs@[a].end + 1
                    < runs@[b].start by {
                    if b == last {
                        assert(before[a].end + 1 < start);
                    }
                }
                assert forall|k: int| 0 <= k < i implies covered(runs@, #[trigger] numbers@[k])
                    || next <= numbers@[k] <= next by {
                    if covered(before, numbers@[k]) {
                        let j = choose|j: int|
                            0 <= j < before.len() && (#[trigger] before[j]).holds(numbers@[k]);
                        assert(runs@[j].holds(numbers@[k]));
                    } else {
                        assert(runs@[last].holds(numbers@[k]));
                    }
                }
            }
            start = next;
            end = next;
        }
        i += 1;
    }
    let ghost before = runs@;
    runs.push(Run { start, end });
    proof {
        let last = before.len() as int;
        assert forall|a: int, b: int| 0 <= a < b < runs@.len() implies runs@[a].end + 1
            < runs@[b].start by {
            if b == last {
                assert(before[a].end + 1 < start);
            }
        }
        assert forall|x: u32| covered(runs@, x) <==> numbers@.contains(x) by {
            if covered(runs@, x) {
                let k = choose|k: int| 0 <= k < runs@.len() && (#[trigger] runs@[k]).holds(x);
                if k < last {
                    assert(before[k].holds(x));
                }
            }
            if numbers@.contains(x) {
                let j = choose|j: int| 0 <= j < numbers@.len() && numbers@[j] == x;
                if covered(before, numbers@[j]) {
                    let k = choose|k: int|
                        0 <= k < before.len() && (#[trigger] before[k]).holds(numbers@[j]);
                    assert(runs@[k].holds(x));
                } else {
                    assert(runs@[last].holds(x));
                }
            }
        }
    }
    runs
}

/// The runs in groups of at most `per`: every group but the last holds
/// exactly `per`.
pub open spec fn grouped(runs: Seq<Run>, per: int) -> Seq<Seq<Run>>
    decreases runs.len(),
{
    if runs.len() == 0 {
        Seq::empty()
    } else if per <= 0 || runs.len() <= per {
        seq![runs]
    } else {
        seq![runs.take(per)] + grouped(runs.skip(per), per)
    }
}

/// How many runs an acknowledgement of at most `budget` bytes can hold.
pub open spec fn runs_per(budget: int) -> int {
    let fit = (budget - 3) / 7;
    if fit > MAX_RUNS {
        MAX_RUNS as int
    } else {
        fit
    }
}

/// Whether `runs` is the way to write `numbers` as runs: the runs are
/// separated, well formed, and hold exactly these numbers.
pub open spec fn written_as(numbers: Seq<u32>, runs: Seq<Run>) -> bool {
    &&& separated(runs)
    &&& all_runs_wf(runs)
    &&& forall|x: u32| covered(runs, x) <==> numbers.contains(x)
}

/// Whether `numbers` can be acknowledged: they are in ascending order and
/// fit in 24 bits.
pub open spec fn acknowledgeable(numbers: Seq<u32>) -> bool {
    ascending(numbers) && forall|i: int| 0 <= i < numbers.len() ==> numbers[i] < INDEX_LIMIT
}

/// The acknowledgements that tell a peer which numbers arrived or are
/// missing, each of at most `budget` bytes.
///
/// The numbers are written as runs, and the runs divided among as many
/// acknowledgements as it takes. Nothing is produced for no numbers, nor
/// for numbers that are not in ascending order or beyond 24 bits, nor for
/// a budget under ten bytes, which would not hold a single run.
pub fn acknowledgements(numbers: &Vec<u32>, kind: AckKind, budget: usize) -> (out: Vec<Vec<u8>>)
    ensures
        !acknowledgeable(numbers@) || budget < 10 ==> out@.len() == 0,
        acknowledgeable(numbers@) && budget >= 10 ==> exists|runs: Seq<Run>|
            #[trigger] written_as(numbers@, runs) && out@.len() == grouped(
                runs,
                runs_per(budget as int),
            ).len() && forall|i: int|
                0 <= i < out@.len() ==> (#[trigger] out@[i])@ == (AckView {
                    kind,
                    runs: grouped(runs, runs_per(budget as int))[i],
                }).encoding() && out@[i]@.len() <= budget,
{
    let mut out: Vec<Vec<u8>> = Vec::new();
    if budget < 10 {
        return out;
    }
    let mut k: usize = 0;
    while k < numbers.len()
        invariant
            k <= numbers@.len(),
            out@.len() == 0,
            forall|i: int| 0 <= i < k ==> numbers@[i] < INDEX_LIMIT,
            forall|i: int, j: int| 0 <= i < j < k ==> numbers@[i] < numbers@[j],
        decreases numbers@.len() - k,
    {
        if numbers[k] >= INDEX_LIMIT || (k > 0 && numbers[k - 1] >= numbers[k]) {
            assert(!acknowledgeable(numbers@)) by {
                if numbers@[k as int] < INDEX_LIMIT {
                    assert(!(numbers@[k - 1] < numbers@[k as int]));
                }
            }
            return out;
        }
        proof {
            assert forall|i: int, j: int| 0 <= i < j < k + 1 implies numbers@[i] < numbers@[j] by {
                if j == k && i < k - 1 {
                    assert(numbers@[i] < numbers@[k - 1]);
                }
            }
        }
        k += 1;
    }
    let mut runs = runs_of(numbers);
    let ghost all = runs@;
    proof {
        assert forall|i: int| 0 <= i < all.len() implies (#[trigger] all[i]).wf() by {
            assert(all[i].holds(all[i].end));
            assert(covered(all, all[i].end));
            let j = choose|j: int| 0 <= j < numbers@.len() && numbers@[j] == all[i].end;
        }
        assert(written_as(numbers@, all));
    }
    let fit = (budget - 3) / 7;
    let per: usize = if fit > MAX_RUNS {
        MAX_RUNS
    } else {
        fit
    };
    let mut start: usize = 0;
    let total = runs.len();
    assert(all.skip(0) =~= all);
    while start < total
        invariant
            start <= total,
            total == all.len(),
            runs@ == all,
            all_runs_wf(all),
            1 <= per <= MAX_RUNS,
            per == runs_per(budget as int),
            3 + 7 * per <= budget,
            out@.len() <= grouped(all, per as int).len(),
            grouped(all, per as int).skip(out@.len() as int) == grouped(
                all.skip(start as int),
                per as int,
            ),
            forall|i: int|
                0 <= i < out@.len() ==> (#[trigger] out@[i])@ == (AckView {
                    kind,
                    runs: grouped(all, per as int)[i],
                }).encoding() && out@[i]@.len() <= budget,
        decreases total - start,
    {
        let end: usize = if total - start <= per {
            total
        } else {
            start + per
        };
        let mut group: Vec<Run> = Vec::new();
        let mut j: usize = start;
        while j < end
            invariant
                start <= j <= end <= total,
                runs@ == all,
                total == all.len(),
                group@ == all.subrange(start as int, j as int),
            decreases end - j,
        {
            group.push(runs[j]);
            j += 1;
            assert(group@ =~= all.subrange(start as int, j as int));
        }
        let ghost rest = all.skip(start as int);
        let ghost groups = grouped(all, per as int);
        let ghost n = out@.len() as int;
        proof {
            assert(group@ =~= if rest.len() <= per { rest } else { rest.take(per as int) });
            assert(rest.skip((end - start) as int) =~= all.skip(end as int));
            if rest.len() <= per {
                assert(grouped(rest, per as int) == seq![rest]);
                assert(grouped(all.skip(end as int), per as int) =~= Seq::<Seq<Run>>::empty());
            }
            assert(grouped(rest, per as int) =~= seq![group@] + grouped(
                all.skip(end as int),
                per as int,
            ));
            assert(groups.skip(n).len() >= 1);
            assert(groups[n] == groups.skip(n)[0]);
            assert(groups.skip(n + 1) =~= groups.skip(n).skip(1));
            assert(groups.skip(n).skip(1) =~= grouped(all.skip(end as int), per as int));
            assert forall|i: int| 0 <= i < group@.len() implies (#[trigger] group@[i]).wf() by {
                assert(all[start + i].wf());
            }
        }
        let ack = Ack { kind, runs: group };
        proof {
            lemma_encoding_len(ack@);
        }
        out.push(ack.to());
        start = end;
    }
    proof {
        assert(grouped(all.skip(start as int), per as int) =~= Seq::<Seq<Run>>::empty());
        assert(grouped(all, per as int).skip(out@.len() as int).len() == 0);
    }
    out
}

/// An acknowledgement takes three bytes and at most seven for each run.
pub proof fn lemma_encoding_len(ack: AckView)
    requires
        all_runs_wf(ack.runs),
    ensures
        ack.encoding().len() <= 3 + 7 * ack.runs.len(),
{
    lemma_runs_encoding_len(ack.runs);
}

/// Runs take at most seven bytes each.
pub proof fn lemma_runs_encoding_len(runs: Seq<Run>)
    ensures
        runs_encoding(runs).len() <= 7 * runs.len(),
    decreases runs.len(),
{
    if runs.len() > 0 {
        lemma_runs_encoding_len(runs.drop_last());
    }
}

} // verus!
