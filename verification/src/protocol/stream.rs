//! Byte streams.
//!
//! Packets are written with `binary_util::io::ByteWriter` and read with
//! `binary_util::io::ByteReader`. Both are opaque to the verifier: what a
//! writer has accumulated and what a reader has left are named by
//! [`writer_bytes`] and [`reader_bytes`], and each method the library calls
//! is given a contract over those names. The integer layouts themselves are
//! ordinary spec functions, with their round-trip laws proved below.

use binary_util::io::ByteReader;
use binary_util::io::ByteWriter;
use vstd::prelude::*;

verus! {

/// Big-endian layout of a 16-bit unsigned integer.
pub open spec fn u16_be(v: u16) -> Seq<u8> {
    seq![(v / 0x100) as u8, (v % 0x100) as u8]
}

/// The 16-bit unsigned integer whose big-endian layout starts `b`.
#[verifier::opaque]
pub open spec fn u16_from_be(b: Seq<u8>) -> u16 {
    (b[0] as int * 0x100 + b[1] as int) as u16
}

/// Little-endian layout of the low 24 bits of `v`.
pub open spec fn u24_le(v: u32) -> Seq<u8> {
    seq![(v % 0x100) as u8, (v / 0x100 % 0x100) as u8, (v / 0x1_0000 % 0x100) as u8]
}

/// The 24-bit unsigned integer whose little-endian layout starts `b`.
#[verifier::opaque]
pub open spec fn u24_from_le(b: Seq<u8>) -> u32 {
    (b[0] as int + b[1] as int * 0x100 + b[2] as int * 0x1_0000) as u32
}

/// Big-endian layout of a 32-bit unsigned integer.
pub open spec fn u32_be(v: u32) -> Seq<u8> {
    seq![
        (v / 0x100_0000) as u8,
        (v / 0x1_0000 % 0x100) as u8,
        (v / 0x100 % 0x100) as u8,
        (v % 0x100) as u8,
    ]
}

/// The 32-bit unsigned integer whose big-endian layout starts `b`.
#[verifier::opaque]
pub open spec fn u32_from_be(b: Seq<u8>) -> u32 {
    (b[0] as int * 0x100_0000 + b[1] as int * 0x1_0000 + b[2] as int * 0x100 + b[3] as int) as u32
}

/// Big-endian layout of a 64-bit unsigned integer.
pub open spec fn u64_be(v: u64) -> Seq<u8> {
    u32_be((v / 0x1_0000_0000) as u32) + u32_be((v % 0x1_0000_0000) as u32)
}

/// The 64-bit unsigned integer whose big-endian layout starts `b`.
#[verifier::opaque]
pub open spec fn u64_from_be(b: Seq<u8>) -> u64 {
    (u32_from_be(b.subrange(0, 4)) as int * 0x1_0000_0000 + u32_from_be(b.subrange(4, 8)) as int) as u64
}

/// Two's-complement bit pattern of a 64-bit signed integer.
pub open spec fn i64_bits(v: i64) -> u64 {
    if v >= 0 {
        v as u64
    } else {
        (v + 0x1_0000_0000_0000_0000) as u64
    }
}

/// The 64-bit signed integer with the two's-complement bit pattern `u`.
pub open spec fn i64_of_bits(u: u64) -> i64 {
    if u < 0x8000_0000_0000_0000 {
        u as i64
    } else {
        (u - 0x1_0000_0000_0000_0000) as i64
    }
}

/// Big-endian two's-complement layout of a 64-bit signed integer.
pub open spec fn i64_be(v: i64) -> Seq<u8> {
    u64_be(i64_bits(v))
}

/// The 64-bit signed integer whose big-endian layout starts `b`.
#[verifier::opaque]
pub open spec fn i64_from_be(b: Seq<u8>) -> i64 {
    i64_of_bits(u64_from_be(b))
}

/// Layout of a boolean: one byte, `1` for true and `0` for false.
pub open spec fn bool_byte(v: bool) -> u8 {
    if v {
        1
    } else {
        0
    }
}

/// Reading back a written `u16` gives the value, whatever follows it.
pub proof fn lemma_u16_round_trip(v: u16, rest: Seq<u8>)
    ensures
        u16_be(v).len() == 2,
        u16_from_be(u16_be(v) + rest) == v,
{
    reveal(u16_from_be);
}

/// Reading back a written 24-bit value gives the value, whatever follows it.
pub proof fn lemma_u24_round_trip(v: u32, rest: Seq<u8>)
    requires
        v < 0x100_0000,
    ensures
        u24_le(v).len() == 3,
        u24_from_le(u24_le(v) + rest) == v,
{
    reveal(u24_from_le);
}

/// Reading back a written `u32` gives the value, whatever follows it.
pub proof fn lemma_u32_round_trip(v: u32, rest: Seq<u8>)
    ensures
        u32_be(v).len() == 4,
        u32_from_be(u32_be(v) + rest) == v,
{
    reveal(u32_from_be);
}

/// Reading back a written `u64` gives the value, whatever follows it.
pub proof fn lemma_u64_round_trip(v: u64, rest: Seq<u8>)
    ensures
        u64_be(v).len() == 8,
        u64_from_be(u64_be(v) + rest) == v,
{
    reveal(u64_from_be);
    let hi = (v / 0x1_0000_0000) as u32;
    let lo = (v % 0x1_0000_0000) as u32;
    let b = u64_be(v) + rest;
    assert(b.subrange(0, 4) =~= u32_be(hi) + Seq::<u8>::empty());
    assert(b.subrange(4, 8) =~= u32_be(lo) + Seq::<u8>::empty());
    lemma_u32_round_trip(hi, Seq::<u8>::empty());
    lemma_u32_round_trip(lo, Seq::<u8>::empty());
}

/// Reading back a written `i64` gives the value, whatever follows it.
pub proof fn lemma_i64_round_trip(v: i64, rest: Seq<u8>)
    ensures
        i64_be(v).len() == 8,
        i64_from_be(i64_be(v) + rest) == v,
{
    reveal(i64_from_be);
    lemma_u64_round_trip(i64_bits(v), rest);
}

/// `binary_util::io::ByteWriter`, a growing buffer of bytes. Nothing is
/// known of a value but what [`writer_bytes`] names.
#[verifier::external_type_specification]
#[verifier::external_body]
pub struct ExByteWriter(ByteWriter);

/// `binary_util::io::ByteReader`, a cursor over bytes. Nothing is known of
/// a value but what [`reader_bytes`] names.
#[verifier::external_type_specification]
#[verifier::external_body]
pub struct ExByteReader(ByteReader);

/// The bytes a writer has accumulated, oldest first: what
/// `ByteWriter::as_slice` shows.
pub uninterp spec fn writer_bytes(w: ByteWriter) -> Seq<u8>;

/// The bytes a reader has not yet consumed, next first: what
/// `ByteReader::as_slice` shows.
pub uninterp spec fn reader_bytes(r: ByteReader) -> Seq<u8>;

/// `ByteWriter::new`: a writer that holds no bytes.
#[verifier::external_body]
pub(crate) fn writer_new() -> (w: ByteWriter)
    ensures
        writer_bytes(w) == Seq::<u8>::empty(),
{
    ByteWriter::new()
}

/// `ByteWriter::write_u8`: appends the byte. The method refuses only when the
/// buffer would grow past `isize::MAX` bytes, which `requires` rules out.
#[verifier::external_body]
pub(crate) fn write_u8(w: &mut ByteWriter, v: u8)
    requires
        writer_bytes(*old(w)).len() + 1 <= isize::MAX,
    ensures
        writer_bytes(*final(w)) == writer_bytes(*old(w)).push(v),
{
    let _ = w.write_u8(v);
}

/// `ByteWriter::write_bool`: appends one byte, `1` for true and `0` for
/// false. Refuses only past `isize::MAX` bytes, which `requires` rules out.
#[verifier::external_body]
pub(crate) fn write_bool(w: &mut ByteWriter, v: bool)
    requires
        writer_bytes(*old(w)).len() + 1 <= isize::MAX,
    ensures
        writer_bytes(*final(w)) == writer_bytes(*old(w)).push(bool_byte(v)),
{
    let _ = w.write_bool(v);
}

/// `ByteWriter::write_u16`: appends the two bytes of `v`, most significant
/// first. Refuses only past `isize::MAX` bytes, which `requires` rules out.
#[verifier::external_body]
pub(crate) fn write_u16(w: &mut ByteWriter, v: u16)
    requires
        writer_bytes(*old(w)).len() + 2 <= isize::MAX,
    ensures
        writer_bytes(*final(w)) == writer_bytes(*old(w)) + u16_be(v),
{
    let _ = w.write_u16(v);
}

/// `ByteWriter::write_u24_le`: appends the three low bytes of `v`, least
/// significant first. Refuses only past `isize::MAX` bytes, which `requires`
/// rules out.
#[verifier::external_body]
pub(crate) fn write_u24_le(w: &mut ByteWriter, v: u32)
    requires
        writer_bytes(*old(w)).len() + 3 <= isize::MAX,
    ensures
        writer_bytes(*final(w)) == writer_bytes(*old(w)) + u24_le(v),
{
    let _ = w.write_u24_le(v);
}

/// `ByteWriter::write_u32`: appends the four bytes of `v`, most significant
/// first. Refuses only past `isize::MAX` bytes, which `requires` rules out.
#[verifier::external_body]
pub(crate) fn write_u32(w: &mut ByteWriter, v: u32)
    requires
        writer_bytes(*old(w)).len() + 4 <= isize::MAX,
    ensures
        writer_bytes(*final(w)) == writer_bytes(*old(w)) + u32_be(v),
{
    let _ = w.write_u32(v);
}

/// `ByteWriter::write_u64`: appends the eight bytes of `v`, most significant
/// first. Refuses only past `isize::MAX` bytes, which `requires` rules out.
#[verifier::external_body]
pub(crate) fn write_u64(w: &mut ByteWriter, v: u64)
    requires
        writer_bytes(*old(w)).len() + 8 <= isize::MAX,
    ensures
        writer_bytes(*final(w)) == writer_bytes(*old(w)) + u64_be(v),
{
    let _ = w.write_u64(v);
}

/// `ByteWriter::write_i64`: appends the eight bytes of the two's-complement
/// pattern of `v`, most significant first. Refuses only past `isize::MAX`
/// bytes, which `requires` rules out.
#[verifier::external_body]
pub(crate) fn write_i64(w: &mut ByteWriter, v: i64)
    requires
        writer_bytes(*old(w)).len() + 8 <= isize::MAX,
    ensures
        writer_bytes(*final(w)) == writer_bytes(*old(w)) + i64_be(v),
{
    let _ = w.write_i64(v);
}

/// `ByteWriter::write`: appends `bytes` as they are, with no length prefix.
/// Refuses only past `isize::MAX` bytes, which `requires` rules out.
#[verifier::external_body]
pub(crate) fn write_bytes(w: &mut ByteWriter, bytes: &[u8])
    requires
        writer_bytes(*old(w)).len() + bytes@.len() <= isize::MAX,
    ensures
        writer_bytes(*final(w)) == writer_bytes(*old(w)) + bytes@,
{
    let _ = w.write(bytes);
}

/// `ByteWriter::as_slice`, copied out: everything written so far.
#[verifier::external_body]
pub(crate) fn writer_to_vec(w: &ByteWriter) -> (out: Vec<u8>)
    ensures
        out@ == writer_bytes(*w),
{
    w.as_slice().to_vec()
}

/// `ByteReader::from(&[u8])`: a reader over a copy of `bytes`.
#[verifier::external_body]
pub(crate) fn reader_from(bytes: &[u8]) -> (r: ByteReader)
    ensures
        reader_bytes(r) == bytes@,
{
    ByteReader::from(bytes)
}

/// `ByteReader::as_slice`, measured: how many bytes are left to read.
#[verifier::external_body]
pub(crate) fn reader_len(r: &ByteReader) -> (n: usize)
    ensures
        n == reader_bytes(*r).len(),
{
    r.as_slice().len()
}

/// `ByteReader::read_u8`: with a byte left, consumes and returns it;
/// otherwise fails and consumes nothing.
#[verifier::external_body]
pub(crate) fn read_u8(r: &mut ByteReader) -> (out: Option<u8>)
    ensures
        match out {
            Some(v) => {
                &&& reader_bytes(*old(r)).len() >= 1
                &&& v == reader_bytes(*old(r))[0]
                &&& reader_bytes(*final(r)) == reader_bytes(*old(r)).skip(1)
            },
            None => {
                &&& reader_bytes(*old(r)).len() < 1
                &&& reader_bytes(*final(r)) == reader_bytes(*old(r))
            },
        },
{
    r.read_u8().ok()
}

/// `ByteReader::read_bool`: with a byte left, consumes it and returns whether
/// it is nonzero; otherwise fails and consumes nothing.
#[verifier::external_body]
pub(crate) fn read_bool(r: &mut ByteReader) -> (out: Option<bool>)
    ensures
        match out {
            Some(v) => {
                &&& reader_bytes(*old(r)).len() >= 1
                &&& v == (reader_bytes(*old(r))[0] != 0)
                &&& reader_bytes(*final(r)) == reader_bytes(*old(r)).skip(1)
            },
            None => {
                &&& reader_bytes(*old(r)).len() < 1
                &&& reader_bytes(*final(r)) == reader_bytes(*old(r))
            },
        },
{
    r.read_bool().ok()
}

/// `ByteReader::read_u16`: with two bytes or more left, consumes two and
/// returns them as a big-endian integer; otherwise fails and consumes nothing.
#[verifier::external_body]
pub(crate) fn read_u16(r: &mut ByteReader) -> (out: Option<u16>)
    ensures
        match out {
            Some(v) => {
                &&& reader_bytes(*old(r)).len() >= 2
                &&& v == u16_from_be(reader_bytes(*old(r)))
                &&& reader_bytes(*final(r)) == reader_bytes(*old(r)).skip(2)
            },
            None => {
                &&& reader_bytes(*old(r)).len() < 2
                &&& reader_bytes(*final(r)) == reader_bytes(*old(r))
            },
        },
{
    r.read_u16().ok()
}

/// `ByteReader::read_u24_le`: with three bytes or more left, consumes three
/// and returns them as a little-endian integer; otherwise fails and consumes
/// nothing.
#[verifier::external_body]
pub(crate) fn read_u24_le(r: &mut ByteReader) -> (out: Option<u32>)
    ensures
        match out {
            Some(v) => {
                &&& reader_bytes(*old(r)).len() >= 3
                &&& v == u24_from_le(reader_bytes(*old(r)))
                &&& reader_bytes(*final(r)) == reader_bytes(*old(r)).skip(3)
            },
            None => {
                &&& reader_bytes(*old(r)).len() < 3
                &&& reader_bytes(*final(r)) == reader_bytes(*old(r))
            },
        },
{
    r.read_u24_le().ok()
}

/// `ByteReader::read_u32`: with four bytes or more left, consumes four and
/// returns them as a big-endian integer; otherwise fails and consumes nothing.
#[verifier::external_body]
pub(crate) fn read_u32(r: &mut ByteReader) -> (out: Option<u32>)
    ensures
        match out {
            Some(v) => {
                &&& reader_bytes(*old(r)).len() >= 4
                &&& v == u32_from_be(reader_bytes(*old(r)))
                &&& reader_bytes(*final(r)) == reader_bytes(*old(r)).skip(4)
            },
            None => {
                &&& reader_bytes(*old(r)).len() < 4
                &&& reader_bytes(*final(r)) == reader_bytes(*old(r))
            },
        },
{
    r.read_u32().ok()
}

/// `ByteReader::read_u64`: with eight bytes or more left, consumes eight and
/// returns them as a big-endian integer; otherwise fails and consumes nothing.
#[verifier::external_body]
pub(crate) fn read_u64(r: &mut ByteReader) -> (out: Option<u64>)
    ensures
        match out {
            Some(v) => {
                &&& reader_bytes(*old(r)).len() >= 8
                &&& v == u64_from_be(reader_bytes(*old(r)))
                &&& reader_bytes(*final(r)) == reader_bytes(*old(r)).skip(8)
            },
            None => {
                &&& reader_bytes(*old(r)).len() < 8
                &&& reader_bytes(*final(r)) == reader_bytes(*old(r))
            },
        },
{
    r.read_u64().ok()
}

/// `ByteReader::read_i64`: with eight bytes or more left, consumes eight and
/// returns them as a big-endian two's-complement integer; otherwise fails and
/// consumes nothing.
#[verifier::external_body]
pub(crate) fn read_i64(r: &mut ByteReader) -> (out: Option<i64>)
    ensures
        match out {
            Some(v) => {
                &&& reader_bytes(*old(r)).len() >= 8
                &&& v == i64_from_be(reader_bytes(*old(r)))
                &&& reader_bytes(*final(r)) == reader_bytes(*old(r)).skip(8)
            },
            None => {
                &&& reader_bytes(*old(r)).len() < 8
                &&& reader_bytes(*final(r)) == reader_bytes(*old(r))
            },
        },
{
    r.read_i64().ok()
}

/// `ByteReader::read`: with `n` bytes or more left, consumes `n` and returns
/// them in order; otherwise fails and consumes nothing.
#[verifier::external_body]
pub(crate) fn read_bytes(r: &mut ByteReader, n: usize) -> (out: Option<Vec<u8>>)
    ensures
        match out {
            Some(v) => {
                &&& reader_bytes(*old(r)).len() >= n
                &&& v@ == reader_bytes(*old(r)).subrange(0, n as int)
                &&& reader_bytes(*final(r)) == reader_bytes(*old(r)).skip(n as int)
            },
            None => {
                &&& reader_bytes(*old(r)).len() < n
                &&& reader_bytes(*final(r)) == reader_bytes(*old(r))
            },
        },
{
    let mut buf = vec![0u8; n];
    match r.read(&mut buf) {
        Ok(()) => Some(buf),
        Err(_) => None,
    }
}

/// The sixteen-byte sentinel that marks every offline packet.
pub const MAGIC: [u8; 16] = [
    0x00, 0xff, 0xff, 0x00, 0xfe, 0xfe, 0xfe, 0xfe, 0xfd, 0xfd, 0xfd, 0xfd, 0x12, 0x34, 0x56, 0x78,
];

/// The sentinel as a sequence of bytes.
pub open spec fn magic() -> Seq<u8> {
    seq![
        0x00u8, 0xff, 0xff, 0x00, 0xfe, 0xfe, 0xfe, 0xfe, 0xfd, 0xfd, 0xfd, 0xfd, 0x12, 0x34, 0x56, 0x78,
    ]
}

/// Appends the sentinel.
pub(crate) fn write_magic(w: &mut ByteWriter)
    requires
        writer_bytes(*old(w)).len() + 16 <= isize::MAX,
    ensures
        writer_bytes(*final(w)) == writer_bytes(*old(w)) + magic(),
{
    let sentinel = MAGIC;
    assert(sentinel@ =~= magic());
    write_bytes(w, sentinel.as_slice());
}

/// Whether `bytes` is the sentinel, bit for bit.
pub(crate) fn is_magic(bytes: &Vec<u8>) -> (ok: bool)
    ensures
        ok == (bytes@ == magic()),
{
    if bytes.len() != 16 {
        return false;
    }
    let sentinel = MAGIC;
    assert(sentinel@ =~= magic());
    let mut i: usize = 0;
    while i < 16
        invariant
            i <= 16,
            bytes@.len() == 16,
            sentinel@ == magic(),
            forall|k: int| 0 <= k < i ==> bytes@[k] == magic()[k],
        decreases 16 - i,
    {
        if bytes[i] != sentinel[i] {
            return false;
        }
        i += 1;
    }
    assert(bytes@ =~= magic());
    true
}

} // verus!
