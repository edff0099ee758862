//! The offline packets: what two peers exchange before a session exists.
//!
//! Every packet starts with a one-byte id. `to` produces the whole packet,
//! id included; `recv` takes what follows the id, as the id has already been
//! looked at to pick the packet type. All integers are big-endian.

use crate::protocol::stream::bool_byte;
use crate::protocol::stream::i64_be;
use crate::protocol::stream::i64_from_be;
use crate::protocol::stream::is_magic;
use crate::protocol::stream::lemma_i64_round_trip;
use crate::protocol::stream::lemma_u16_round_trip;
use crate::protocol::stream::lemma_u32_round_trip;
use crate::protocol::stream::lemma_u64_round_trip;
use crate::protocol::stream::magic;
use crate::protocol::stream::read_bool;
use crate::protocol::stream::read_bytes;
use crate::protocol::stream::read_i64;
use crate::protocol::stream::read_u16;
use crate::protocol::stream::read_u32;
use crate::protocol::stream::read_u64;
use crate::protocol::stream::read_u8;
use crate::protocol::stream::reader_bytes;
use crate::protocol::stream::reader_from;
use crate::protocol::stream::reader_len;
use crate::protocol::stream::u16_be;
use crate::protocol::stream::u16_from_be;
use crate::protocol::stream::u32_be;
use crate::protocol::stream::u32_from_be;
use crate::protocol::stream::u64_be;
use crate::protocol::stream::u64_from_be;
use crate::protocol::stream::write_bool;
use crate::protocol::stream::write_bytes;
use crate::protocol::stream::write_i64;
use crate::protocol::stream::write_magic;
use crate::protocol::stream::write_u16;
use crate::protocol::stream::write_u32;
use crate::protocol::stream::write_u64;
use crate::protocol::stream::write_u8;
use crate::protocol::stream::writer_bytes;
use crate::protocol::stream::writer_new;
use crate::protocol::stream::writer_to_vec;
use binary_util::io::ByteReader;
use binary_util::io::ByteWriter;
use vstd::prelude::*;

verus! {

/// Bytes that the link and transport layers add to every datagram. A
/// datagram of `n` bytes travels in an IP packet of `n + 28`.
pub const UDP_HEADER_SIZE: u16 = 28;

/// The smallest MTU a session is given.
pub const MIN_MTU: u16 = 576;

/// The largest MTU a session is given.
pub const MAX_MTU: u16 = 1500;

/// The smallest MTU an `OpenConnectRequest` can advertise: one whose
/// datagram holds the id, the sentinel and the protocol version, and no
/// padding.
pub const SMALLEST_REQUEST_MTU: u16 = 46;

/// The kinds of offline packet, by their id byte.
#[derive(Debug, Clone, Copy, PartialEq, Eq, Structural)]
pub enum OfflinePackets {
    UnconnectedPing,
    OpenConnectRequest,
    OpenConnectReply,
    SessionInfo,
    SessionInfoReply,
    UnconnectedPong,
    IncompatibleProtocolVersion,
    /// Any id that names none of the above.
    UnknownPacket(u8),
}

impl OfflinePackets {
    /// The kind that an id byte names.
    pub open spec fn from_byte(byte: u8) -> OfflinePackets {
        if byte == 0x01 {
            OfflinePackets::UnconnectedPing
        } else if byte == 0x05 {
            OfflinePackets::OpenConnectRequest
        } else if byte == 0x06 {
            OfflinePackets::OpenConnectReply
        } else if byte == 0x07 {
            OfflinePackets::SessionInfo
        } else if byte == 0x08 {
            OfflinePackets::SessionInfoReply
        } else if byte == 0x1c {
            OfflinePackets::UnconnectedPong
        } else if byte == 0x19 {
            OfflinePackets::IncompatibleProtocolVersion
        } else {
            OfflinePackets::UnknownPacket(byte)
        }
    }

    /// The id byte of a kind.
    pub open spec fn byte(self) -> u8 {
        match self {
            OfflinePackets::UnconnectedPing => 0x01,
            OfflinePackets::OpenConnectRequest => 0x05,
            OfflinePackets::OpenConnectReply => 0x06,
            OfflinePackets::SessionInfo => 0x07,
            OfflinePackets::SessionInfoReply => 0x08,
            OfflinePackets::UnconnectedPong => 0x1c,
            OfflinePackets::IncompatibleProtocolVersion => 0x19,
            OfflinePackets::UnknownPacket(byte) => byte,
        }
    }

    /// Whether this is the value that `recv` gives for its id byte: an
    /// `UnknownPacket` that carries the id of a known kind is not.
    pub open spec fn is_canonical(self) -> bool {
        self matches OfflinePackets::UnknownPacket(byte) ==> Self::from_byte(
            byte,
        ) is UnknownPacket
    }

    /// The kind of packet that starts with `byte`.
    pub fn recv(byte: u8) -> (kind: Self)
        ensures
            kind == Self::from_byte(byte),
    {
        match byte {
            0x01 => OfflinePackets::UnconnectedPing,
            0x05 => OfflinePackets::OpenConnectRequest,
            0x06 => OfflinePackets::OpenConnectReply,
            0x07 => OfflinePackets::SessionInfo,
            0x08 => OfflinePackets::SessionInfoReply,
            0x1c => OfflinePackets::UnconnectedPong,
            0x19 => OfflinePackets::IncompatibleProtocolVersion,
            _ => OfflinePackets::UnknownPacket(byte),
        }
    }

    /// The id byte that packets of this kind start with.
    pub fn to_byte(&self) -> (byte: u8)
        ensures
            byte == self.byte(),
    {
        match *self {
            OfflinePackets::UnconnectedPing => 0x01,
            OfflinePackets::OpenConnectRequest => 0x05,
            OfflinePackets::OpenConnectReply => 0x06,
            OfflinePackets::SessionInfo => 0x07,
            OfflinePackets::SessionInfoReply => 0x08,
            OfflinePackets::UnconnectedPong => 0x1c,
            OfflinePackets::IncompatibleProtocolVersion => 0x19,
            OfflinePackets::UnknownPacket(byte) => byte,
        }
    }

    /// Every byte is the id of the kind it names, and a canonical kind is the
    /// one its id names.
    pub proof fn lemma_id_round_trip(byte: u8, kind: OfflinePackets)
        ensures
            Self::from_byte(byte).byte() == byte,
            Self::from_byte(byte).is_canonical(),
            kind.is_canonical() ==> Self::from_byte(kind.byte()) == kind,
    {
    }
}

/// Why the bytes of a packet could not be read.
#[derive(Debug, Clone, Copy, PartialEq, Eq, Structural)]
pub enum PacketError {
    /// The bytes end before the packet does.
    Truncated,
    /// The sentinel is not the expected one.
    BadMagic,
    /// An address starts with a version tag other than 4 or 6.
    BadAddress,
    /// The packet is too long for its size to be told as an MTU.
    Oversized,
}

/// The address of a peer as it travels in a packet.
#[derive(Debug, Clone, Copy, PartialEq, Eq, Structural)]
pub enum PeerAddress {
    /// An IPv4 address, as the integer whose big-endian bytes are its four
    /// octets, and a port.
    V4 { ip: u32, port: u16 },
    /// An IPv6 address, as the integer whose big-endian bytes are its
    /// sixteen octets, with the socket family, port, flow label and scope id.
    V6 { family: u16, port: u16, flow: u32, ip6: u128, scope: u32 },
}

impl PeerAddress {
    /// The bytes of the address: seven for IPv4 (the tag 4, the four octets
    /// each inverted, the port) and twenty-nine for IPv6 (the tag 6, family,
    /// port, flow label, the sixteen octets, scope id).
    #[verifier::opaque]
    pub open spec fn encoding(self) -> Seq<u8> {
        match self {
            PeerAddress::V4 { ip, port } => seq![4u8] + u32_be((0xffff_ffff - ip) as u32) + u16_be(
                port,
            ),
            PeerAddress::V6 { family, port, flow, ip6, scope } => seq![6u8] + u16_be(family)
                + u16_be(port) + u32_be(flow) + u64_be((ip6 / 0x1_0000_0000_0000_0000) as u64)
                + u64_be((ip6 % 0x1_0000_0000_0000_0000) as u64) + u32_be(scope),
        }
    }

    /// The address that `b` starts with and the number of bytes it takes.
    #[verifier::opaque]
    pub open spec fn parse(b: Seq<u8>) -> Result<(PeerAddress, int), PacketError> {
        if b.len() < 1 {
            Err(PacketError::Truncated)
        } else if b[0] == 4 {
            if b.len() < 7 {
                Err(PacketError::Truncated)
            } else {
                Ok(
                    (
                        PeerAddress::V4 {
                            ip: (0xffff_ffff - u32_from_be(b.skip(1))) as u32,
                            port: u16_from_be(b.skip(5)),
                        },
                        7,
                    ),
                )
            }
        } else if b[0] == 6 {
            if b.len() < 29 {
                Err(PacketError::Truncated)
            } else {
                Ok(
                    (
                        PeerAddress::V6 {
                            family: u16_from_be(b.skip(1)),
                            port: u16_from_be(b.skip(3)),
                            flow: u32_from_be(b.skip(5)),
                            ip6: (u64_from_be(b.skip(9)) * 0x1_0000_0000_0000_0000 + u64_from_be(
                                b.skip(17),
                            )) as u128,
                            scope: u32_from_be(b.skip(25)),
                        },
                        29,
                    ),
                )
            }
        } else {
            Err(PacketError::BadAddress)
        }
    }

    /// Where the fields of an IPv6 address start: after the tag and the
    /// fields before them.
    proof fn lemma_v6_layout(
        family: Seq<u8>,
        port: Seq<u8>,
        flow: Seq<u8>,
        hi: Seq<u8>,
        lo: Seq<u8>,
        scope: Seq<u8>,
        rest: Seq<u8>,
    )
        requires
            family.len() == 2,
            port.len() == 2,
            flow.len() == 4,
            hi.len() == 8,
            lo.len() == 8,
            scope.len() == 4,
        ensures
            ({
                let b = seq![6u8] + family + port + flow + hi + lo + scope + rest;
                &&& b.len() == 29 + rest.len()
                &&& b[0] == 6
                &&& b.skip(1) == family + (port + (flow + (hi + (lo + (scope + rest)))))
                &&& b.skip(3) == port + (flow + (hi + (lo + (scope + rest))))
                &&& b.skip(5) == flow + (hi + (lo + (scope + rest)))
                &&& b.skip(9) == hi + (lo + (scope + rest))
                &&& b.skip(17) == lo + (scope + rest)
                &&& b.skip(25) == scope + rest
            }),
    {
        let b = seq![6u8] + family + port + flow + hi + lo + scope + rest;
        assert(b.skip(1) =~= family + (port + (flow + (hi + (lo + (scope + rest))))));
        assert(b.skip(3) =~= port + (flow + (hi + (lo + (scope + rest)))));
        assert(b.skip(5) =~= flow + (hi + (lo + (scope + rest))));
        assert(b.skip(9) =~= hi + (lo + (scope + rest)));
        assert(b.skip(17) =~= lo + (scope + rest));
        assert(b.skip(25) =~= scope + rest);
    }

    /// Reading back a written address gives the address, whatever follows.
    pub proof fn lemma_round_trip(self, rest: Seq<u8>)
        ensures
            Self::parse(self.encoding() + rest) == Ok::<(PeerAddress, int), PacketError>(
                (self, self.encoding().len() as int),
            ),
            self.encoding().len() == 7 || self.encoding().len() == 29,
    {
        reveal(PeerAddress::encoding);
        reveal(PeerAddress::parse);
        let b = self.encoding() + rest;
        match self {
            PeerAddress::V4 { ip, port } => {
                let inv = (0xffff_ffff - ip) as u32;
                lemma_u32_round_trip(inv, u16_be(port) + rest);
                lemma_u16_round_trip(port, rest);
                assert(b.skip(1) =~= u32_be(inv) + (u16_be(port) + rest));
                assert(b.skip(5) =~= u16_be(port) + rest);
            },
            PeerAddress::V6 { family, port, flow, ip6, scope } => {
                let hi = (ip6 / 0x1_0000_0000_0000_0000) as u64;
                let lo = (ip6 % 0x1_0000_0000_0000_0000) as u64;
                assert(hi * 0x1_0000_0000_0000_0000 + lo == ip6);
                let t5 = u32_be(scope) + rest;
                let t4 = u64_be(lo) + t5;
                let t3 = u64_be(hi) + t4;
                let t2 = u32_be(flow) + t3;
                let t1 = u16_be(port) + t2;
                lemma_u16_round_trip(family, t1);
                lemma_u16_round_trip(port, t2);
                lemma_u32_round_trip(flow, t3);
                lemma_u64_round_trip(hi, t4);
                lemma_u64_round_trip(lo, t5);
                lemma_u32_round_trip(scope, rest);
                Self::lemma_v6_layout(
                    u16_be(family),
                    u16_be(port),
                    u32_be(flow),
                    u64_be(hi),
                    u64_be(lo),
                    u32_be(scope),
                    rest,
                );
            },
        }
    }

    /// An address that was read took seven or twenty-nine of the bytes it
    /// was read from.
    pub proof fn lemma_parsed_len(self, b: Seq<u8>)
        requires
            Self::parse(b) is Ok,
        ensures
            ({
                let used = Self::parse(b)->Ok_0.1;
                (used == 7 || used == 29) && used <= b.len()
            }),
    {
        reveal(PeerAddress::parse);
    }

    /// Appends the bytes of the address.
    pub(crate) fn write_to(&self, w: &mut ByteWriter)
        requires
            writer_bytes(*old(w)).len() + 29 <= isize::MAX,
        ensures
            writer_bytes(*final(w)) == writer_bytes(*old(w)) + self.encoding(),
    {
        let ghost start = writer_bytes(*w);
        proof {
            reveal(PeerAddress::encoding);
        }
        match *self {
            PeerAddress::V4 { ip, port } => {
                write_u8(w, 4);
                write_u32(w, 0xffff_ffff - ip);
                write_u16(w, port);
            },
            PeerAddress::V6 { family, port, flow, ip6, scope } => {
                write_u8(w, 6);
                write_u16(w, family);
                write_u16(w, port);
                write_u32(w, flow);
                write_u64(w, (ip6 / 0x1_0000_0000_0000_0000) as u64);
                write_u64(w, (ip6 % 0x1_0000_0000_0000_0000) as u64);
                write_u32(w, scope);
            },
        }
        assert(writer_bytes(*w) =~= start + self.encoding());
    }

    /// Consumes the address that the reader's bytes start with.
    pub(crate) fn read_from(r: &mut ByteReader) -> (res: Result<PeerAddress, PacketError>)
        ensures
            match Self::parse(reader_bytes(*old(r))) {
                Ok((addr, used)) => res == Ok::<PeerAddress, PacketError>(addr) && reader_bytes(
                    *final(r),
                ) == reader_bytes(*old(r)).skip(used) && (used == 7 || used == 29) && used
                    <= reader_bytes(*old(r)).len(),
                Err(e) => res == Err::<PeerAddress, PacketError>(e),
            },
    {
        let ghost b = reader_bytes(*r);
        proof {
            reveal(PeerAddress::parse);
        }
        let tag = match read_u8(r) {
            Some(tag) => tag,
            None => { return Err(PacketError::Truncated); },
        };
        if tag == 4 {
            if reader_len(r) < 6 {
                return Err(PacketError::Truncated);
            }
            let raw = read_u32(r);
            let port = read_u16(r);
            match (raw, port) {
                (Some(raw), Some(port)) => {
                    assert(reader_bytes(*r) =~= b.skip(7));
                    assert(port == u16_from_be(b.skip(5))) by {
                        assert(b.skip(1).skip(4) =~= b.skip(5));
                    }
                    Ok(PeerAddress::V4 { ip: 0xffff_ffff - raw, port })
                },
                _ => Err(PacketError::Truncated),
            }
        } else if tag == 6 {
            if reader_len(r) < 28 {
                return Err(PacketError::Truncated);
            }
            let family = read_u16(r);
            let port = read_u16(r);
            let flow = read_u32(r);
            let hi = read_u64(r);
            let lo = read_u64(r);
            let scope = read_u32(r);
            match (family, port, flow, hi, lo, scope) {
                (Some(family), Some(port), Some(flow), Some(hi), Some(lo), Some(scope)) => {
                    proof {
                        assert(b.skip(1).skip(2) =~= b.skip(3));
                        assert(b.skip(3).skip(2) =~= b.skip(5));
                        assert(b.skip(5).skip(4) =~= b.skip(9));
                        assert(b.skip(9).skip(8) =~= b.skip(17));
                        assert(b.skip(17).skip(8) =~= b.skip(25));
                        assert(b.skip(25).skip(4) =~= b.skip(29));
                    }
                    let ip6: u128 = (hi as u128) * 0x1_0000_0000_0000_0000 + (lo as u128);
                    Ok(PeerAddress::V6 { family, port, flow, ip6, scope })
                },
                _ => Err(PacketError::Truncated),
            }
        } else {
            Err(PacketError::BadAddress)
        }
    }
}

/// `n` zero bytes.
pub open spec fn zeros(n: nat) -> Seq<u8> {
    Seq::new(n, |i: int| 0u8)
}

/// A vector of `n` zero bytes.
fn zero_bytes(n: usize) -> (out: Vec<u8>)
    ensures
        out@ == zeros(n as nat),
{
    let mut out: Vec<u8> = Vec::new();
    let mut i: usize = 0;
    while i < n
        invariant
            i <= n,
            out@ == zeros(i as nat),
        decreases n - i,
    {
        out.push(0);
        i += 1;
        assert(out@ =~= zeros(i as nat));
    }
    out
}

/// Asks a server whether it is there. Layout after the id `0x01`: the
/// sender's timestamp, the sentinel, the sender's id.
#[derive(Debug, Clone, Copy, PartialEq, Eq, Structural)]
pub struct UnconnectedPing {
    pub timestamp: i64,
    pub client_id: i64,
}

impl UnconnectedPing {
    /// The whole packet.
    pub open spec fn encoding(self) -> Seq<u8> {
        seq![0x01u8] + i64_be(self.timestamp) + magic() + i64_be(self.client_id)
    }

    /// The packet whose bytes after the id are `body`.
    pub open spec fn parse(body: Seq<u8>) -> Result<UnconnectedPing, PacketError> {
        if body.len() < 32 {
            Err(PacketError::Truncated)
        } else if body.subrange(8, 24) != magic() {
            Err(PacketError::BadMagic)
        } else {
            Ok(
                UnconnectedPing {
                    timestamp: i64_from_be(body),
                    client_id: i64_from_be(body.skip(24)),
                },
            )
        }
    }

    /// Encoding a ping and decoding what follows its id gives the ping back.
    pub proof fn lemma_round_trip(self)
        ensures
            self.encoding()[0] == OfflinePackets::UnconnectedPing.byte(),
            Self::parse(self.encoding().skip(1)) == Ok::<UnconnectedPing, PacketError>(self),
    {
        let body = self.encoding().skip(1);
        lemma_i64_round_trip(self.timestamp, magic() + i64_be(self.client_id));
        lemma_i64_round_trip(self.client_id, Seq::<u8>::empty());
        assert(body =~= i64_be(self.timestamp) + (magic() + i64_be(self.client_id)));
        assert(body.subrange(8, 24) =~= magic());
        assert(body.skip(24) =~= i64_be(self.client_id) + Seq::<u8>::empty());
    }

    /// The bytes of the packet, id first.
    pub fn to(&self) -> (out: Vec<u8>)
        ensures
            out@ == self.encoding(),
    {
        let mut w = writer_new();
        write_u8(&mut w, 0x01);
        write_i64(&mut w, self.timestamp);
        write_magic(&mut w);
        write_i64(&mut w, self.client_id);
        let out = writer_to_vec(&w);
        assert(out@ =~= self.encoding());
        out
    }

    /// Reads the packet from the bytes that follow its id. Bytes past the
    /// packet's end are ignored.
    pub fn recv(body: &[u8]) -> (res: Result<UnconnectedPing, PacketError>)
        ensures
            res == Self::parse(body@),
    {
        let mut r = reader_from(body);
        if reader_len(&r) < 32 {
            return Err(PacketError::Truncated);
        }
        let timestamp = read_i64(&mut r);
        let sentinel = read_bytes(&mut r, 16);
        let client_id = read_i64(&mut r);
        match (timestamp, sentinel, client_id) {
            (Some(timestamp), Some(sentinel), Some(client_id)) => {
                assert(sentinel@ =~= body@.subrange(8, 24));
                assert(body@.skip(8).skip(16) =~= body@.skip(24));
                if !is_magic(&sentinel) {
                    return Err(PacketError::BadMagic);
                }
                Ok(UnconnectedPing { timestamp, client_id })
            },
            _ => Err(PacketError::Truncated),
        }
    }
}

/// Answers a ping. Layout after the id `0x1c`: the server's timestamp, the
/// server's id, the sentinel, then the server's description as a 16-bit
/// length and that many bytes.
#[derive(Debug, Clone, PartialEq, Eq)]
pub struct UnconnectedPong {
    pub timestamp: u64,
    pub server_id: i64,
    pub motd: Vec<u8>,
}

/// An `UnconnectedPong` as a mathematical value.
pub struct UnconnectedPongView {
    pub timestamp: u64,
    pub server_id: i64,
    pub motd: Seq<u8>,
}

impl View for UnconnectedPong {
    type V = UnconnectedPongView;

    open spec fn view(&self) -> UnconnectedPongView {
        UnconnectedPongView {
            timestamp: self.timestamp,
            server_id: self.server_id,
            motd: self.motd@,
        }
    }
}

impl UnconnectedPongView {
    /// The description is short enough for its length to be written.
    pub open spec fn wf(self) -> bool {
        self.motd.len() <= 0xffff
    }

    /// The whole packet.
    pub open spec fn encoding(self) -> Seq<u8> {
        seq![0x1cu8] + u64_be(self.timestamp) + i64_be(self.server_id) + magic() + u16_be(
            self.motd.len() as u16,
        ) + self.motd
    }

    /// The packet whose bytes after the id are `body`.
    pub open spec fn parse(body: Seq<u8>) -> Result<UnconnectedPongView, PacketError> {
        if body.len() < 34 {
            Err(PacketError::Truncated)
        } else if body.subrange(16, 32) != magic() {
            Err(PacketError::BadMagic)
        } else if body.len() < 34 + u16_from_be(body.skip(32)) {
            Err(PacketError::Truncated)
        } else {
            Ok(
                UnconnectedPongView {
                    timestamp: u64_from_be(body),
                    server_id: i64_from_be(body.skip(8)),
                    motd: body.subrange(34, 34 + u16_from_be(body.skip(32))),
                },
            )
        }
    }

    /// Encoding a pong and decoding what follows its id gives the pong back.
    pub proof fn lemma_round_trip(self)
        requires
            self.wf(),
        ensures
            self.encoding()[0] == OfflinePackets::UnconnectedPong.byte(),
            Self::parse(self.encoding().skip(1)) == Ok::<UnconnectedPongView, PacketError>(self),
    {
        let body = self.encoding().skip(1);
        let n = self.motd.len() as u16;
        let t3 = u16_be(n) + self.motd;
        let t2 = magic() + t3;
        let t1 = i64_be(self.server_id) + t2;
        lemma_u64_round_trip(self.timestamp, t1);
        lemma_i64_round_trip(self.server_id, t2);
        lemma_u16_round_trip(n, self.motd);
        assert(body =~= u64_be(self.timestamp) + t1);
        assert(body.skip(8) =~= t1);
        assert(body.subrange(16, 32) =~= magic());
        assert(body.skip(32) =~= t3);
        assert(body.subrange(34, 34 + n) =~= self.motd);
    }
}

impl UnconnectedPong {
    /// The bytes of the packet, id first.
    pub fn to(&self) -> (out: Vec<u8>)
        requires
            self@.wf(),
        ensures
            out@ == self@.encoding(),
    {
        let mut w = writer_new();
        write_u8(&mut w, 0x1c);
        write_u64(&mut w, self.timestamp);
        write_i64(&mut w, self.server_id);
        write_magic(&mut w);
        write_u16(&mut w, self.motd.len() as u16);
        write_bytes(&mut w, self.motd.as_slice());
        let out = writer_to_vec(&w);
        assert(out@ =~= self@.encoding());
        out
    }

    /// Reads the packet from the bytes that follow its id. Bytes past the
    /// packet's end are ignored.
    pub fn recv(body: &[u8]) -> (res: Result<UnconnectedPong, PacketError>)
        ensures
            match res {
                Ok(pong) => UnconnectedPongView::parse(body@) == Ok::<
                    UnconnectedPongView,
                    PacketError,
                >(pong@),
                Err(e) => UnconnectedPongView::parse(body@) == Err::<
                    UnconnectedPongView,
                    PacketError,
                >(e),
            },
    {
        let mut r = reader_from(body);
        if reader_len(&r) < 34 {
            return Err(PacketError::Truncated);
        }
        let timestamp = read_u64(&mut r);
        let server_id = read_i64(&mut r);
        let sentinel = read_bytes(&mut r, 16);
        let length = read_u16(&mut r);
        match (timestamp, server_id, sentinel, length) {
            (Some(timestamp), Some(server_id), Some(sentinel), Some(length)) => {
                assert(sentinel@ =~= body@.subrange(16, 32));
                assert(body@.skip(8).skip(8).skip(16) =~= body@.skip(32));
                assert(reader_bytes(r) =~= body@.skip(34));
                if !is_magic(&sentinel) {
                    return Err(PacketError::BadMagic);
                }
                match read_bytes(&mut r, length as usize) {
                    Some(motd) => {
                        assert(motd@ =~= body@.subrange(34, 34 + length));
                        Ok(UnconnectedPong { timestamp, server_id, motd })
                    },
                    None => Err(PacketError::Truncated),
                }
            },
            _ => Err(PacketError::Truncated),
        }
    }
}

/// Opens the handshake. Layout after the id `0x05`: the sentinel, the
/// protocol version, then zero padding up to the size the client wants
/// datagrams to have; with the 28 bytes of headers that size is the MTU.
#[derive(Debug, Clone, Copy, PartialEq, Eq, Structural)]
pub struct OpenConnectRequest {
    pub protocol: u8,
    pub mtu_size: u16,
}

impl OpenConnectRequest {
    /// The MTU leaves room for the fields that come before the padding.
    pub open spec fn wf(self) -> bool {
        self.mtu_size >= SMALLEST_REQUEST_MTU
    }

    /// The whole packet.
    pub open spec fn encoding(self) -> Seq<u8> {
        seq![0x05u8] + magic() + seq![self.protocol] + zeros(
            (self.mtu_size - SMALLEST_REQUEST_MTU) as nat,
        )
    }

    /// The packet whose bytes after the id are `body`.
    pub open spec fn parse(body: Seq<u8>) -> Result<OpenConnectRequest, PacketError> {
        if body.len() < 17 {
            Err(PacketError::Truncated)
        } else if body.subrange(0, 16) != magic() {
            Err(PacketError::BadMagic)
        } else if body.len() + 1 + UDP_HEADER_SIZE > 0xffff {
            Err(PacketError::Oversized)
        } else {
            Ok(
                OpenConnectRequest {
                    protocol: body[16],
                    mtu_size: (body.len() + 1 + UDP_HEADER_SIZE) as u16,
                },
            )
        }
    }

    /// Encoding a request and decoding what follows its id gives the request
    /// back, and the packet is 28 bytes shorter than the MTU it asks for.
    pub proof fn lemma_round_trip(self)
        requires
            self.wf(),
        ensures
            self.encoding()[0] == OfflinePackets::OpenConnectRequest.byte(),
            self.encoding().len() + UDP_HEADER_SIZE == self.mtu_size,
            Self::parse(self.encoding().skip(1)) == Ok::<OpenConnectRequest, PacketError>(self),
    {
        let body = self.encoding().skip(1);
        assert(body.subrange(0, 16) =~= magic());
    }

    /// The bytes of the packet, id first.
    pub fn to(&self) -> (out: Vec<u8>)
        requires
            self.wf(),
        ensures
            out@ == self.encoding(),
    {
        let padding = zero_bytes((self.mtu_size - SMALLEST_REQUEST_MTU) as usize);
        let mut w = writer_new();
        write_u8(&mut w, 0x05);
        write_magic(&mut w);
        write_u8(&mut w, self.protocol);
        write_bytes(&mut w, padding.as_slice());
        let out = writer_to_vec(&w);
        assert(out@ =~= self.encoding());
        out
    }

    /// Reads the packet from the bytes that follow its id. The MTU is told
    /// by the length of the packet.
    pub fn recv(body: &[u8]) -> (res: Result<OpenConnectRequest, PacketError>)
        ensures
            res == Self::parse(body@),
    {
        let mut r = reader_from(body);
        let length = reader_len(&r);
        if length < 17 {
            return Err(PacketError::Truncated);
        }
        let sentinel = read_bytes(&mut r, 16);
        let protocol = read_u8(&mut r);
        match (sentinel, protocol) {
            (Some(sentinel), Some(protocol)) => {
                if !is_magic(&sentinel) {
                    return Err(PacketError::BadMagic);
                }
                if length > 0xffff - 29 {
                    return Err(PacketError::Oversized);
                }
                Ok(OpenConnectRequest { protocol, mtu_size: (length + 29) as u16 })
            },
            _ => Err(PacketError::Truncated),
        }
    }
}

/// Accepts an `OpenConnectRequest`. Layout after the id `0x06`: the
/// sentinel, the server's id, whether the server wants security, the MTU.
#[derive(Debug, Clone, Copy, PartialEq, Eq, Structural)]
pub struct OpenConnectReply {
    pub server_id: i64,
    pub security: bool,
    pub mtu: u16,
}

impl OpenConnectReply {
    /// The whole packet.
    pub open spec fn encoding(self) -> Seq<u8> {
        seq![0x06u8] + magic() + i64_be(self.server_id) + seq![bool_byte(self.security)] + u16_be(
            self.mtu,
        )
    }

    /// The packet whose bytes after the id are `body`.
    pub open spec fn parse(body: Seq<u8>) -> Result<OpenConnectReply, PacketError> {
        if body.len() < 27 {
            Err(PacketError::Truncated)
        } else if body.subrange(0, 16) != magic() {
            Err(PacketError::BadMagic)
        } else {
            Ok(
                OpenConnectReply {
                    server_id: i64_from_be(body.skip(16)),
                    security: body[24] != 0,
                    mtu: u16_from_be(body.skip(25)),
                },
            )
        }
    }

    /// Encoding a reply and decoding what follows its id gives the reply
    /// back.
    pub proof fn lemma_round_trip(self)
        ensures
            self.encoding()[0] == OfflinePackets::OpenConnectReply.byte(),
            Self::parse(self.encoding().skip(1)) == Ok::<OpenConnectReply, PacketError>(self),
    {
        let body = self.encoding().skip(1);
        let t2 = seq![bool_byte(self.security)] + u16_be(self.mtu);
        lemma_i64_round_trip(self.server_id, t2);
        lemma_u16_round_trip(self.mtu, Seq::<u8>::empty());
        assert(body.subrange(0, 16) =~= magic());
        assert(body.skip(16) =~= i64_be(self.server_id) + t2);
        assert(body.skip(25) =~= u16_be(self.mtu) + Seq::<u8>::empty());
    }

    /// The bytes of the packet, id first.
    pub fn to(&self) -> (out: Vec<u8>)
        ensures
            out@ == self.encoding(),
    {
        let mut w = writer_new();
        write_u8(&mut w, 0x06);
        write_magic(&mut w);
        write_i64(&mut w, self.server_id);
        write_bool(&mut w, self.security);
        write_u16(&mut w, self.mtu);
        let out = writer_to_vec(&w);
        assert(out@ =~= self.encoding());
        out
    }

    /// Reads the packet from the bytes that follow its id. Bytes past the
    /// packet's end are ignored.
    pub fn recv(body: &[u8]) -> (res: Result<OpenConnectReply, PacketError>)
        ensures
            res == Self::parse(body@),
    {
        let mut r = reader_from(body);
        if reader_len(&r) < 27 {
            return Err(PacketError::Truncated);
        }
        let sentinel = read_bytes(&mut r, 16);
        let server_id = read_i64(&mut r);
        let security = read_bool(&mut r);
        let mtu = read_u16(&mut r);
        match (sentinel, server_id, security, mtu) {
            (Some(sentinel), Some(server_id), Some(security), Some(mtu)) => {
                assert(body@.skip(16).skip(8).skip(1) =~= body@.skip(25));
                if !is_magic(&sentinel) {
                    return Err(PacketError::BadMagic);
                }
                Ok(OpenConnectReply { server_id, security, mtu })
            },
            _ => Err(PacketError::Truncated),
        }
    }
}

/// Refuses an `OpenConnectRequest` whose protocol version the server does
/// not speak. Layout after the id `0x19`: the sentinel, the version the
/// server speaks, the server's id.
#[derive(Debug, Clone, Copy, PartialEq, Eq, Structural)]
pub struct IncompatibleProtocolVersion {
    pub server_protocol: u8,
    pub server_id: i64,
}

impl IncompatibleProtocolVersion {
    /// The whole packet.
    pub open spec fn encoding(self) -> Seq<u8> {
        seq![0x19u8] + magic() + seq![self.server_protocol] + i64_be(self.server_id)
    }

    /// The packet whose bytes after the id are `body`.
    pub open spec fn parse(body: Seq<u8>) -> Result<IncompatibleProtocolVersion, PacketError> {
        if body.len() < 25 {
            Err(PacketError::Truncated)
        } else if body.subrange(0, 16) != magic() {
            Err(PacketError::BadMagic)
        } else {
            Ok(
                IncompatibleProtocolVersion {
                    server_protocol: body[16],
                    server_id: i64_from_be(body.skip(17)),
                },
            )
        }
    }

    /// Encoding the packet and decoding what follows its id gives it back.
    pub proof fn lemma_round_trip(self)
        ensures
            self.encoding()[0] == OfflinePackets::IncompatibleProtocolVersion.byte(),
            Self::parse(self.encoding().skip(1)) == Ok::<IncompatibleProtocolVersion, PacketError>(
                self,
            ),
    {
        let body = self.encoding().skip(1);
        lemma_i64_round_trip(self.server_id, Seq::<u8>::empty());
        assert(body.subrange(0, 16) =~= magic());
        assert(body.skip(17) =~= i64_be(self.server_id) + Seq::<u8>::empty());
    }

    /// The bytes of the packet, id first.
    pub fn to(&self) -> (out: Vec<u8>)
        ensures
            out@ == self.encoding(),
    {
        let mut w = writer_new();
        write_u8(&mut w, 0x19);
        write_magic(&mut w);
        write_u8(&mut w, self.server_protocol);
        write_i64(&mut w, self.server_id);
        let out = writer_to_vec(&w);
        assert(out@ =~= self.encoding());
        out
    }

    /// Reads the packet from the bytes that follow its id. Bytes past the
    /// packet's end are ignored.
    pub fn recv(body: &[u8]) -> (res: Result<IncompatibleProtocolVersion, PacketError>)
        ensures
            res == Self::parse(body@),
    {
        let mut r = reader_from(body);
        if reader_len(&r) < 25 {
            return Err(PacketError::Truncated);
        }
        let sentinel = read_bytes(&mut r, 16);
        let server_protocol = read_u8(&mut r);
        let server_id = read_i64(&mut r);
        match (sentinel, server_protocol, server_id) {
            (Some(sentinel), Some(server_protocol), Some(server_id)) => {
                assert(body@.skip(16).skip(1) =~= body@.skip(17));
                if !is_magic(&sentinel) {
                    return Err(PacketError::BadMagic);
                }
                Ok(IncompatibleProtocolVersion { server_protocol, server_id })
            },
            _ => Err(PacketError::Truncated),
        }
    }
}

/// Asks for a session, once the MTU is agreed. Layout after the id `0x07`:
/// the sentinel, the address the client sends to, the MTU, the client's id.
#[derive(Debug, Clone, Copy, PartialEq, Eq, Structural)]
pub struct SessionInfo {
    pub address: PeerAddress,
    pub mtu: u16,
    pub client_id: i64,
}

impl SessionInfo {
    /// The whole packet.
    pub open spec fn encoding(self) -> Seq<u8> {
        seq![0x07u8] + magic() + self.address.encoding() + u16_be(self.mtu) + i64_be(
            self.client_id,
        )
    }

    /// The packet whose bytes after the id are `body`.
    pub open spec fn parse(body: Seq<u8>) -> Result<SessionInfo, PacketError> {
        if body.len() < 16 {
            Err(PacketError::Truncated)
        } else if body.subrange(0, 16) != magic() {
            Err(PacketError::BadMagic)
        } else {
            match PeerAddress::parse(body.skip(16)) {
                Err(e) => Err(e),
                Ok((address, used)) => {
                    let rest = body.skip(16 + used);
                    if rest.len() < 10 {
                        Err(PacketError::Truncated)
                    } else {
                        Ok(
                            SessionInfo {
                                address,
                                mtu: u16_from_be(rest),
                                client_id: i64_from_be(rest.skip(2)),
                            },
                        )
                    }
                },
            }
        }
    }

    /// Where the fields start in what follows the id.
    proof fn lemma_layout(address: Seq<u8>, mtu: Seq<u8>, client_id: Seq<u8>)
        requires
            mtu.len() == 2,
            client_id.len() == 8,
        ensures
            ({
                let body = (seq![0x07u8] + magic() + address + mtu + client_id).skip(1);
                &&& body.len() == 26 + address.len()
                &&& body.subrange(0, 16) == magic()
                &&& body.skip(16) == address + (mtu + client_id)
                &&& body.skip(16 + address.len() as int) == mtu + client_id
                &&& (mtu + client_id).skip(2) == client_id + Seq::<u8>::empty()
            }),
    {
        let body = (seq![0x07u8] + magic() + address + mtu + client_id).skip(1);
        assert(body.subrange(0, 16) =~= magic());
        assert(body.skip(16) =~= address + (mtu + client_id));
        assert(body.skip(16 + address.len() as int) =~= mtu + client_id);
        assert((mtu + client_id).skip(2) =~= client_id + Seq::<u8>::empty());
    }

    /// Encoding the packet and decoding what follows its id gives it back.
    pub proof fn lemma_round_trip(self)
        ensures
            self.encoding()[0] == OfflinePackets::SessionInfo.byte(),
            Self::parse(self.encoding().skip(1)) == Ok::<SessionInfo, PacketError>(self),
    {
        let t2 = i64_be(self.client_id);
        let t1 = u16_be(self.mtu) + t2;
        self.address.lemma_round_trip(t1);
        lemma_u16_round_trip(self.mtu, t2);
        lemma_i64_round_trip(self.client_id, Seq::<u8>::empty());
        Self::lemma_layout(self.address.encoding(), u16_be(self.mtu), t2);
    }

    /// The bytes of the packet, id first.
    pub fn to(&self) -> (out: Vec<u8>)
        ensures
            out@ == self.encoding(),
    {
        proof {
            self.address.lemma_round_trip(Seq::<u8>::empty());
        }
        let mut w = writer_new();
        write_u8(&mut w, 0x07);
        write_magic(&mut w);
        self.address.write_to(&mut w);
        write_u16(&mut w, self.mtu);
        write_i64(&mut w, self.client_id);
        let out = writer_to_vec(&w);
        assert(out@ =~= self.encoding());
        out
    }

    /// Reads the packet from the bytes that follow its id. Bytes past the
    /// packet's end are ignored.
    pub fn recv(body: &[u8]) -> (res: Result<SessionInfo, PacketError>)
        ensures
            res == Self::parse(body@),
    {
        let mut r = reader_from(body);
        if reader_len(&r) < 16 {
            return Err(PacketError::Truncated);
        }
        match read_bytes(&mut r, 16) {
            Some(sentinel) => {
                if !is_magic(&sentinel) {
                    return Err(PacketError::BadMagic);
                }
            },
            None => { return Err(PacketError::Truncated); },
        }
        let ghost used = PeerAddress::parse(body@.skip(16));
        let address = match PeerAddress::read_from(&mut r) {
            Ok(address) => address,
            Err(e) => { return Err(e); },
        };
        assert(reader_bytes(r) =~= body@.skip(16 + used->Ok_0.1));
        if reader_len(&r) < 10 {
            return Err(PacketError::Truncated);
        }
        let mtu = read_u16(&mut r);
        let client_id = read_i64(&mut r);
        match (mtu, client_id) {
            (Some(mtu), Some(client_id)) => Ok(SessionInfo { address, mtu, client_id }),
            _ => Err(PacketError::Truncated),
        }
    }
}

/// Grants a session. Layout after the id `0x08`: the sentinel, the server's
/// id, the address the server saw the client at, the MTU, whether the
/// server wants security.
#[derive(Debug, Clone, Copy, PartialEq, Eq, Structural)]
pub struct SessionInfoReply {
    pub server_id: i64,
    pub client_address: PeerAddress,
    pub mtu: u16,
    pub security: bool,
}

impl SessionInfoReply {
    /// The whole packet.
    pub open spec fn encoding(self) -> Seq<u8> {
        seq![0x08u8] + magic() + i64_be(self.server_id) + self.client_address.encoding() + u16_be(
            self.mtu,
        ) + seq![bool_byte(self.security)]
    }

    /// The packet whose bytes after the id are `body`.
    pub open spec fn parse(body: Seq<u8>) -> Result<SessionInfoReply, PacketError> {
        if body.len() < 24 {
            Err(PacketError::Truncated)
        } else if body.subrange(0, 16) != magic() {
            Err(PacketError::BadMagic)
        } else {
            match PeerAddress::parse(body.skip(24)) {
                Err(e) => Err(e),
                Ok((client_address, used)) => {
                    let rest = body.skip(24 + used);
                    if rest.len() < 3 {
                        Err(PacketError::Truncated)
                    } else {
                        Ok(
                            SessionInfoReply {
                                server_id: i64_from_be(body.skip(16)),
                                client_address,
                                mtu: u16_from_be(rest),
                                security: rest[2] != 0,
                            },
                        )
                    }
                },
            }
        }
    }

    /// Where the fields start in what follows the id.
    proof fn lemma_layout(server_id: Seq<u8>, address: Seq<u8>, mtu: Seq<u8>, security: u8)
        requires
            server_id.len() == 8,
            mtu.len() == 2,
        ensures
            ({
                let body = (seq![0x08u8] + magic() + server_id + address + mtu
                    + seq![security]).skip(1);
                &&& body.len() == 27 + address.len()
                &&& body.subrange(0, 16) == magic()
                &&& body.skip(16) == server_id + (address + (mtu + seq![security]))
                &&& body.skip(24) == address + (mtu + seq![security])
                &&& body.skip(24 + address.len() as int) == mtu + seq![security]
                &&& (mtu + seq![security])[2] == security
            }),
    {
        let body = (seq![0x08u8] + magic() + server_id + address + mtu + seq![security]).skip(1);
        assert(body.subrange(0, 16) =~= magic());
        assert(body.skip(16) =~= server_id + (address + (mtu + seq![security])));
        assert(body.skip(24) =~= address + (mtu + seq![security]));
        assert(body.skip(24 + address.len() as int) =~= mtu + seq![security]);
    }

    /// Encoding the packet and decoding what follows its id gives it back.
    pub proof fn lemma_round_trip(self)
        ensures
            self.encoding()[0] == OfflinePackets::SessionInfoReply.byte(),
            Self::parse(self.encoding().skip(1)) == Ok::<SessionInfoReply, PacketError>(self),
    {
        let t3 = seq![bool_byte(self.security)];
        let t2 = u16_be(self.mtu) + t3;
        let t1 = self.client_address.encoding() + t2;
        lemma_i64_round_trip(self.server_id, t1);
        self.client_address.lemma_round_trip(t2);
        lemma_u16_round_trip(self.mtu, t3);
        Self::lemma_layout(
            i64_be(self.server_id),
            self.client_address.encoding(),
            u16_be(self.mtu),
            bool_byte(self.security),
        );
    }

    /// The bytes of the packet, id first.
    pub fn to(&self) -> (out: Vec<u8>)
        ensures
            out@ == self.encoding(),
    {
        proof {
            self.client_address.lemma_round_trip(Seq::<u8>::empty());
        }
        let mut w = writer_new();
        write_u8(&mut w, 0x08);
        write_magic(&mut w);
        write_i64(&mut w, self.server_id);
        self.client_address.write_to(&mut w);
        write_u16(&mut w, self.mtu);
        write_bool(&mut w, self.security);
        let out = writer_to_vec(&w);
        assert(out@ =~= self.encoding());
        out
    }

    /// Reads the packet from the bytes that follow its id. Bytes past the
    /// packet's end are ignored.
    pub fn recv(body: &[u8]) -> (res: Result<SessionInfoReply, PacketError>)
        ensures
            res == Self::parse(body@),
    {
        let mut r = reader_from(body);
        if reader_len(&r) < 24 {
            return Err(PacketError::Truncated);
        }
        let sentinel = read_bytes(&mut r, 16);
        let server_id = read_i64(&mut r);
        let (sentinel, server_id) = match (sentinel, server_id) {
            (Some(sentinel), Some(server_id)) => (sentinel, server_id),
            _ => { return Err(PacketError::Truncated); },
        };
        if !is_magic(&sentinel) {
            return Err(PacketError::BadMagic);
        }
        assert(reader_bytes(r) =~= body@.skip(24));
        let ghost used = PeerAddress::parse(body@.skip(24));
        let client_address = match PeerAddress::read_from(&mut r) {
            Ok(address) => address,
            Err(e) => { return Err(e); },
        };
        assert(reader_bytes(r) =~= body@.skip(24 + used->Ok_0.1));
        if reader_len(&r) < 3 {
            return Err(PacketError::Truncated);
        }
        let mtu = read_u16(&mut r);
        let security = read_bool(&mut r);
        match (mtu, security) {
            (Some(mtu), Some(security)) => Ok(
                SessionInfoReply { server_id, client_address, mtu, security },
            ),
            _ => Err(PacketError::Truncated),
        }
    }
}


/// The MTU a session is given when a peer asks for `mtu`: the nearest value
/// within `[MIN_MTU, MAX_MTU]`.
pub open spec fn clamp_mtu(mtu: u16) -> u16 {
    if mtu < MIN_MTU {
        MIN_MTU
    } else if mtu > MAX_MTU {
        MAX_MTU
    } else {
        mtu
    }
}

/// The MTU a session is given when a peer asks for `mtu`.
pub fn clamp(mtu: u16) -> (out: u16)
    ensures
        out == clamp_mtu(mtu),
{
    if mtu < MIN_MTU {
        MIN_MTU
    } else if mtu > MAX_MTU {
        MAX_MTU
    } else {
        mtu
    }
}

/// What a server tells peers about itself during the offline exchange.
#[derive(Debug, Clone, PartialEq, Eq)]
pub struct ServerConfig {
    pub server_id: i64,
    /// The one protocol version the server speaks.
    pub protocol: u8,
    pub security: bool,
    /// The server's description, sent in every pong.
    pub motd: Vec<u8>,
}

impl ServerConfig {
    /// The description is short enough to be sent.
    pub open spec fn wf(&self) -> bool {
        self.motd@.len() <= 0xffff
    }

    /// Whether the description is short enough to be sent.
    pub fn is_valid(&self) -> (ok: bool)
        ensures
            ok == self.wf(),
    {
        self.motd.len() <= 0xffff
    }
}

/// What a server does on an offline packet.
#[derive(Debug, Clone, PartialEq, Eq)]
pub enum OfflineAction {
    /// Nothing: the packet is noise.
    Discard,
    /// Send these bytes back.
    Reply(Vec<u8>),
    /// Send these bytes back and open a session for the peer.
    Accept { reply: Vec<u8>, client_id: i64, mtu: u16 },
}

/// Whether `action` is the server's answer to a packet of kind `kind` with
/// the bytes `body` after its id, from the peer at `peer`, `elapsed`
/// milliseconds after the server started.
///
/// A ping is answered with a pong. An `OpenConnectRequest` is answered with
/// an `OpenConnectReply` that grants the clamped MTU if it names the
/// server's protocol version, and with an `IncompatibleProtocolVersion` if
/// not. A `SessionInfo` is answered with a `SessionInfoReply` and opens a
/// session. Everything else, and every packet that cannot be read, is
/// discarded.
pub open spec fn answers(
    config: ServerConfig,
    elapsed: u64,
    peer: PeerAddress,
    kind: OfflinePackets,
    body: Seq<u8>,
    action: OfflineAction,
) -> bool {
    match kind {
        OfflinePackets::UnconnectedPing => match UnconnectedPing::parse(body) {
            Ok(_) => action matches OfflineAction::Reply(bytes) && bytes@ == (UnconnectedPongView {
                timestamp: elapsed,
                server_id: config.server_id,
                motd: config.motd@,
            }).encoding(),
            Err(_) => action is Discard,
        },
        OfflinePackets::OpenConnectRequest => match OpenConnectRequest::parse(body) {
            Ok(request) => action matches OfflineAction::Reply(bytes) && bytes@ == if request.protocol
                == config.protocol {
                (OpenConnectReply {
                    server_id: config.server_id,
                    security: config.security,
                    mtu: clamp_mtu(request.mtu_size),
                }).encoding()
            } else {
                (IncompatibleProtocolVersion {
                    server_protocol: config.protocol,
                    server_id: config.server_id,
                }).encoding()
            },
            Err(_) => action is Discard,
        },
        OfflinePackets::SessionInfo => match SessionInfo::parse(body) {
            Ok(info) => action matches OfflineAction::Accept { reply, client_id, mtu } && client_id
                == info.client_id && mtu == clamp_mtu(info.mtu) && reply@ == (SessionInfoReply {
                server_id: config.server_id,
                client_address: peer,
                mtu: clamp_mtu(info.mtu),
                security: config.security,
            }).encoding(),
            Err(_) => action is Discard,
        },
        _ => action is Discard,
    }
}

/// The server's side of the offline exchange: what to do on a packet of
/// kind `pk` whose bytes after the id are `body`.
pub fn handle_offline(
    config: &ServerConfig,
    elapsed: u64,
    peer: PeerAddress,
    pk: OfflinePackets,
    body: &[u8],
) -> (action: OfflineAction)
    requires
        config.wf(),
    ensures
        answers(*config, elapsed, peer, pk, body@, action),
{
    match pk {
        OfflinePackets::UnconnectedPing => match UnconnectedPing::recv(body) {
            Ok(_) => {
                let pong = UnconnectedPong {
                    timestamp: elapsed,
                    server_id: config.server_id,
                    motd: config.motd.clone(),
                };
                OfflineAction::Reply(pong.to())
            },
            Err(_) => OfflineAction::Discard,
        },
        OfflinePackets::OpenConnectRequest => match OpenConnectRequest::recv(body) {
            Ok(request) => {
                if request.protocol == config.protocol {
                    let reply = OpenConnectReply {
                        server_id: config.server_id,
                        security: config.security,
                        mtu: clamp(request.mtu_size),
                    };
                    OfflineAction::Reply(reply.to())
                } else {
                    let reply = IncompatibleProtocolVersion {
                        server_protocol: config.protocol,
                        server_id: config.server_id,
                    };
                    OfflineAction::Reply(reply.to())
                }
            },
            Err(_) => OfflineAction::Discard,
        },
        OfflinePackets::SessionInfo => match SessionInfo::recv(body) {
            Ok(info) => {
                let mtu = clamp(info.mtu);
                let reply = SessionInfoReply {
                    server_id: config.server_id,
                    client_address: peer,
                    mtu,
                    security: config.security,
                };
                OfflineAction::Accept { reply: reply.to(), client_id: info.client_id, mtu }
            },
            Err(_) => OfflineAction::Discard,
        },
        _ => OfflineAction::Discard,
    }
}


} // verus!
