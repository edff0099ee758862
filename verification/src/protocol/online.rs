//! The online packets that finish the handshake. They travel as payloads of
//! reliable-ordered frames, each starting with a one-byte id. `to` produces
//! the whole payload, id included; `recv` takes what follows the id.

use crate::protocol::offline::PacketError;
use crate::protocol::offline::PeerAddress;
use crate::protocol::stream::i64_be;
use crate::protocol::stream::i64_from_be;
use crate::protocol::stream::lemma_i64_round_trip;
use crate::protocol::stream::read_i64;
use crate::protocol::stream::reader_bytes;
use crate::protocol::stream::reader_from;
use crate::protocol::stream::reader_len;
use crate::protocol::stream::write_i64;
use crate::protocol::stream::write_u8;
use crate::protocol::stream::writer_bytes;
use crate::protocol::stream::writer_new;
use crate::protocol::stream::writer_to_vec;
use vstd::prelude::*;

verus! {

/// The id of a `ConnectionRequest`.
pub const ID_CONNECTION_REQUEST: u8 = 0x09;

/// The id of a `ConnectionAccept`.
pub const ID_CONNECTION_ACCEPT: u8 = 0x10;

/// The id of a `NewConnection`.
pub const ID_NEW_CONNECTION: u8 = 0x13;

/// The largest number of system addresses a `ConnectionAccept` is given.
pub const MAX_SYSTEM_ADDRESSES: usize = 20;

/// Asks the server to accept the session. Layout after the id `0x09`: the
/// client's id, the client's timestamp.
#[derive(Debug, Clone, Copy, PartialEq, Eq, Structural)]
pub struct ConnectionRequest {
    pub client_id: i64,
    pub timestamp: i64,
}

impl ConnectionRequest {
    /// The whole payload.
    pub open spec fn encoding(self) -> Seq<u8> {
        seq![0x09u8] + i64_be(self.client_id) + i64_be(self.timestamp)
    }

    /// The packet whose bytes after the id are `body`.
    pub open spec fn parse(body: Seq<u8>) -> Result<ConnectionRequest, PacketError> {
        if body.len() < 16 {
            Err(PacketError::Truncated)
        } else {
            Ok(
                ConnectionRequest {
                    client_id: i64_from_be(body),
                    timestamp: i64_from_be(body.skip(8)),
                },
            )
        }
    }

    /// Encoding the packet and decoding what follows its id gives it back.
    pub proof fn lemma_round_trip(self)
        ensures
            self.encoding()[0] == ID_CONNECTION_REQUEST,
            self.encoding().len() == 17,
            Self::parse(self.encoding().skip(1)) == Ok::<ConnectionRequest, PacketError>(self),
    {
        let body = self.encoding().skip(1);
        lemma_i64_round_trip(self.client_id, i64_be(self.timestamp));
        lemma_i64_round_trip(self.timestamp, Seq::<u8>::empty());
        assert(body =~= i64_be(self.client_id) + i64_be(self.timestamp));
        assert(body.skip(8) =~= i64_be(self.timestamp) + Seq::<u8>::empty());
    }

    /// The bytes of the payload, id first.
    pub fn to(&self) -> (out: Vec<u8>)
        ensures
            out@ == self.encoding(),
    {
        let mut w = writer_new();
        write_u8(&mut w, ID_CONNECTION_REQUEST);
        write_i64(&mut w, self.client_id);
        write_i64(&mut w, self.timestamp);
        let out = writer_to_vec(&w);
        assert(out@ =~= self.encoding());
        out
    }

    /// Reads the packet from the bytes that follow its id. Bytes past the
    /// packet's end are ignored.
    pub fn recv(body: &[u8]) -> (res: Result<ConnectionRequest, PacketError>)
        ensures
            res == Self::parse(body@),
    {
        let mut r = reader_from(body);
        if reader_len(&r) < 16 {
            return Err(PacketError::Truncated);
        }
        match (read_i64(&mut r), read_i64(&mut r)) {
            (Some(client_id), Some(timestamp)) => Ok(ConnectionRequest { client_id, timestamp }),
            _ => Err(PacketError::Truncated),
        }
    }
}

/// Tells the server that the client has seen its acceptance. Layout after
/// the id `0x13`: the server's address, the client's own address, the
/// request time and timestamp of the acceptance.
#[derive(Debug, Clone, Copy, PartialEq, Eq, Structural)]
pub struct NewConnection {
    pub server_address: PeerAddress,
    pub system_address: PeerAddress,
    pub request_time: i64,
    pub timestamp: i64,
}

impl NewConnection {
    /// The whole payload.
    pub open spec fn encoding(self) -> Seq<u8> {
        seq![0x13u8] + self.server_address.encoding() + self.system_address.encoding() + i64_be(
            self.request_time,
        ) + i64_be(self.timestamp)
    }

    /// The packet whose bytes after the id are `body`.
    pub open spec fn parse(body: Seq<u8>) -> Result<NewConnection, PacketError> {
        match PeerAddress::parse(body) {
            Err(e) => Err(e),
            Ok((server_address, used)) => match PeerAddress::parse(body.skip(used)) {
                Err(e) => Err(e),
                Ok((system_address, more)) => {
                    let rest = body.skip(used + more);
                    if rest.len() < 16 {
                        Err(PacketError::Truncated)
                    } else {
                        Ok(
                            NewConnection {
                                server_address,
                                system_address,
                                request_time: i64_from_be(rest),
                                timestamp: i64_from_be(rest.skip(8)),
                            },
                        )
                    }
                },
            },
        }
    }

    /// Where the fields start in what follows the id.
    proof fn lemma_layout(server: Seq<u8>, system: Seq<u8>, request: Seq<u8>, time: Seq<u8>)
        requires
            request.len() == 8,
            time.len() == 8,
        ensures
            ({
                let full = seq![0x13u8] + server + system + request + time;
                let body = full.skip(1);
                &&& full[0] == 0x13
                &&& full.len() == 17 + server.len() + system.len()
                &&& body == server + (system + (request + time))
                &&& body.skip(server.len() as int) == system + (request + time)
                &&& body.skip((server.len() + system.len()) as int) == request + time
                &&& (request + time).skip(8) == time + Seq::<u8>::empty()
            }),
    {
        let body = (seq![0x13u8] + server + system + request + time).skip(1);
        assert(body =~= server + (system + (request + time)));
        assert(body.skip(server.len() as int) =~= system + (request + time));
        assert(body.skip((server.len() + system.len()) as int) =~= request + time);
        assert((request + time).skip(8) =~= time + Seq::<u8>::empty());
    }

    /// Encoding the packet and decoding what follows its id gives it back.
    pub proof fn lemma_round_trip(self)
        ensures
            self.encoding()[0] == ID_NEW_CONNECTION,
            self.encoding().len() <= 75,
            Self::parse(self.encoding().skip(1)) == Ok::<NewConnection, PacketError>(self),
    {
        let t3 = i64_be(self.timestamp);
        let t2 = i64_be(self.request_time) + t3;
        let t1 = self.system_address.encoding() + t2;
        self.server_address.lemma_round_trip(t1);
        self.system_address.lemma_round_trip(t2);
        lemma_i64_round_trip(self.request_time, t3);
        lemma_i64_round_trip(self.timestamp, Seq::<u8>::empty());
        Self::lemma_layout(
            self.server_address.encoding(),
            self.system_address.encoding(),
            i64_be(self.request_time),
            t3,
        );
    }

    /// The bytes of the payload, id first.
    pub fn to(&self) -> (out: Vec<u8>)
        ensures
            out@ == self.encoding(),
            out@.len() <= 75,
    {
        proof {
            self.lemma_round_trip();
        }
        let mut w = writer_new();
        write_u8(&mut w, ID_NEW_CONNECTION);
        self.server_address.write_to(&mut w);
        let ghost s1 = seq![0x13u8] + self.server_address.encoding();
        assert(writer_bytes(w) =~= s1);
        self.system_address.write_to(&mut w);
        write_i64(&mut w, self.request_time);
        write_i64(&mut w, self.timestamp);
        let out = writer_to_vec(&w);
        assert(out@ =~= self.encoding());
        out
    }

    /// Reads the packet from the bytes that follow its id. Bytes past the
    /// packet's end are ignored.
    pub fn recv(body: &[u8]) -> (res: Result<NewConnection, PacketError>)
        ensures
            res == Self::parse(body@),
    {
        let mut r = reader_from(body);
        let ghost first = PeerAddress::parse(body@);
        let server_address = match PeerAddress::read_from(&mut r) {
            Ok(address) => address,
            Err(e) => { return Err(e); },
        };
        let ghost used = first->Ok_0.1;
        let ghost second = PeerAddress::parse(body@.skip(used));
        let system_address = match PeerAddress::read_from(&mut r) {
            Ok(address) => address,
            Err(e) => { return Err(e); },
        };
        let ghost more = second->Ok_0.1;
        assert(reader_bytes(r) =~= body@.skip(used + more));
        if reader_len(&r) < 16 {
            return Err(PacketError::Truncated);
        }
        match (read_i64(&mut r), read_i64(&mut r)) {
            (Some(request_time), Some(timestamp)) => Ok(
                NewConnection { server_address, system_address, request_time, timestamp },
            ),
            _ => Err(PacketError::Truncated),
        }
    }
}

/// The bytes of `addresses`, one after the other.
pub open spec fn addresses_encoding(addresses: Seq<PeerAddress>) -> Seq<u8>
    decreases addresses.len(),
{
    if addresses.len() == 0 {
        Seq::empty()
    } else {
        addresses_encoding(addresses.drop_last()) + addresses.last().encoding()
    }
}

/// The addresses that `b` holds before its last sixteen bytes, and the
/// number of bytes they take.
pub open spec fn parse_addresses(b: Seq<u8>) -> Result<(Seq<PeerAddress>, int), PacketError>
    decreases b.len(),
    via parse_addresses_decreases
{
    if b.len() < 16 {
        Err(PacketError::Truncated)
    } else if b.len() == 16 {
        Ok((Seq::empty(), 0))
    } else {
        match PeerAddress::parse(b) {
            Err(e) => Err(e),
            Ok((address, used)) => match parse_addresses(b.skip(used)) {
                Err(e) => Err(e),
                Ok((more, rest)) => Ok((seq![address] + more, used + rest)),
            },
        }
    }
}

#[via_fn]
proof fn parse_addresses_decreases(b: Seq<u8>) {
    if PeerAddress::parse(b) is Ok {
        let address = PeerAddress::parse(b)->Ok_0.0;
        address.lemma_parsed_len(b);
    }
}

/// The bytes of a first address followed by more are the first address's
/// bytes followed by the bytes of the others.
pub proof fn lemma_addresses_encoding_front(first: PeerAddress, more: Seq<PeerAddress>)
    ensures
        addresses_encoding(seq![first] + more) == first.encoding() + addresses_encoding(more),
    decreases more.len(),
{
    let all = seq![first] + more;
    if more.len() == 0 {
        assert(all.drop_last() =~= Seq::<PeerAddress>::empty());
        assert(first.encoding() + addresses_encoding(more) =~= first.encoding());
        assert(addresses_encoding(all.drop_last()) + first.encoding() =~= first.encoding());
    } else {
        assert(all.drop_last() =~= seq![first] + more.drop_last());
        assert(all.last() == more.last());
        lemma_addresses_encoding_front(first, more.drop_last());
        assert((first.encoding() + addresses_encoding(more.drop_last())) + more.last().encoding()
            =~= first.encoding() + (addresses_encoding(more.drop_last())
            + more.last().encoding()));
    }
}

/// Reading back written addresses that are followed by sixteen bytes gives
/// the same addresses in the same order.
pub proof fn lemma_addresses_round_trip(addresses: Seq<PeerAddress>, trailer: Seq<u8>)
    requires
        trailer.len() == 16,
    ensures
        parse_addresses(addresses_encoding(addresses) + trailer) == Ok::<
            (Seq<PeerAddress>, int),
            PacketError,
        >((addresses, addresses_encoding(addresses).len() as int)),
        addresses_encoding(addresses).len() <= 29 * addresses.len(),
    decreases addresses.len(),
{
    if addresses.len() == 0 {
        assert(addresses =~= Seq::<PeerAddress>::empty());
        assert(addresses_encoding(addresses) + trailer =~= trailer);
    } else {
        let first = addresses[0];
        let more = addresses.skip(1);
        assert(addresses =~= seq![first] + more);
        lemma_addresses_encoding_front(first, more);
        let rest = addresses_encoding(more) + trailer;
        first.lemma_round_trip(rest);
        lemma_addresses_round_trip(more, trailer);
        let b = addresses_encoding(addresses) + trailer;
        assert(b =~= first.encoding() + rest);
        assert(b.skip(first.encoding().len() as int) =~= rest);
        assert(b.len() > 16);
        assert(parse_addresses(b) == Ok::<(Seq<PeerAddress>, int), PacketError>(
            (seq![first] + more, (first.encoding().len() + addresses_encoding(more).len()) as int),
        ));
    }
}

/// Accepts the session. Layout after the id `0x10`: the address the server
/// saw the client at, the server's own addresses back to back, then the
/// request time the client sent and the server's timestamp in the last
/// sixteen bytes.
#[derive(Debug, Clone, PartialEq, Eq)]
pub struct ConnectionAccept {
    pub client_address: PeerAddress,
    pub system_addresses: Vec<PeerAddress>,
    pub request_time: i64,
    pub timestamp: i64,
}

/// A `ConnectionAccept` as a mathematical value.
pub struct ConnectionAcceptView {
    pub client_address: PeerAddress,
    pub system_addresses: Seq<PeerAddress>,
    pub request_time: i64,
    pub timestamp: i64,
}

impl View for ConnectionAccept {
    type V = ConnectionAcceptView;

    open spec fn view(&self) -> ConnectionAcceptView {
        ConnectionAcceptView {
            client_address: self.client_address,
            system_addresses: self.system_addresses@,
            request_time: self.request_time,
            timestamp: self.timestamp,
        }
    }
}

impl ConnectionAcceptView {
    /// There are not too many system addresses.
    pub open spec fn wf(self) -> bool {
        self.system_addresses.len() <= MAX_SYSTEM_ADDRESSES
    }

    /// The whole payload.
    pub open spec fn encoding(self) -> Seq<u8> {
        seq![0x10u8] + self.client_address.encoding() + addresses_encoding(self.system_addresses)
            + (i64_be(self.request_time) + i64_be(self.timestamp))
    }

    /// The packet whose bytes after the id are `body`.
    pub open spec fn parse(body: Seq<u8>) -> Result<ConnectionAcceptView, PacketError> {
        match PeerAddress::parse(body) {
            Err(e) => Err(e),
            Ok((client_address, used)) => match parse_addresses(body.skip(used)) {
                Err(e) => Err(e),
                Ok((system_addresses, more)) => {
                    let rest = body.skip(used + more);
                    Ok(
                        ConnectionAcceptView {
                            client_address,
                            system_addresses,
                            request_time: i64_from_be(rest),
                            timestamp: i64_from_be(rest.skip(8)),
                        },
                    )
                },
            },
        }
    }

    /// Where the fields start in what follows the id.
    proof fn lemma_layout(client: Seq<u8>, systems: Seq<u8>, request: Seq<u8>, time: Seq<u8>)
        requires
            request.len() == 8,
            time.len() == 8,
        ensures
            ({
                let full = seq![0x10u8] + client + systems + (request + time);
                let body = full.skip(1);
                &&& full[0] == 0x10
                &&& full.len() == 17 + client.len() + systems.len()
                &&& body == client + (systems + (request + time))
                &&& body.skip(client.len() as int) == systems + (request + time)
                &&& body.skip((client.len() + systems.len()) as int) == request + time
                &&& (request + time).skip(8) == time + Seq::<u8>::empty()
            }),
    {
        let body = (seq![0x10u8] + client + systems + (request + time)).skip(1);
        assert(body =~= client + (systems + (request + time)));
        assert(body.skip(client.len() as int) =~= systems + (request + time));
        assert(body.skip((client.len() + systems.len()) as int) =~= request + time);
        assert((request + time).skip(8) =~= time + Seq::<u8>::empty());
    }

    /// Encoding the packet and decoding what follows its id gives it back.
    pub proof fn lemma_round_trip(self)
        ensures
            self.encoding()[0] == ID_CONNECTION_ACCEPT,
            self.encoding().len() <= 46 + 29 * self.system_addresses.len(),
            Self::parse(self.encoding().skip(1)) == Ok::<ConnectionAcceptView, PacketError>(self),
    {
        let time = i64_be(self.timestamp);
        let trailer = i64_be(self.request_time) + time;
        let systems = addresses_encoding(self.system_addresses);
        lemma_i64_round_trip(self.request_time, time);
        lemma_i64_round_trip(self.timestamp, Seq::<u8>::empty());
        self.client_address.lemma_round_trip(systems + trailer);
        lemma_addresses_round_trip(self.system_addresses, trailer);
        Self::lemma_layout(self.client_address.encoding(), systems, i64_be(self.request_time), time);
    }
}

impl ConnectionAccept {
    /// The bytes of the payload, id first.
    pub fn to(&self) -> (out: Vec<u8>)
        requires
            self@.wf(),
        ensures
            out@ == self@.encoding(),
    {
        let mut w = writer_new();
        write_u8(&mut w, ID_CONNECTION_ACCEPT);
        self.client_address.write_to(&mut w);
        let ghost head = seq![0x10u8] + self.client_address.encoding();
        assert(writer_bytes(w) =~= head);
        proof {
            self.client_address.lemma_round_trip(Seq::<u8>::empty());
        }
        assert(self.system_addresses@.take(0) =~= Seq::<PeerAddress>::empty());
        let mut i: usize = 0;
        while i < self.system_addresses.len()
            invariant
                self@.wf(),
                i <= self.system_addresses@.len(),
                head.len() <= 30,
                writer_bytes(w) == head + addresses_encoding(self.system_addresses@.take(i as int)),
                writer_bytes(w).len() <= 30 + 29 * i,
            decreases self.system_addresses@.len() - i,
        {
            let ghost before = self.system_addresses@.take(i as int);
            let address = self.system_addresses[i];
            proof {
                address.lemma_round_trip(Seq::<u8>::empty());
            }
            address.write_to(&mut w);
            i += 1;
            proof {
                let now = self.system_addresses@.take(i as int);
                assert(now.drop_last() =~= before);
                assert(now.last() == address);
                assert(writer_bytes(w) =~= head + addresses_encoding(now));
            }
        }
        assert(self.system_addresses@.take(i as int) =~= self.system_addresses@);
        let ghost s2 = writer_bytes(w);
        write_i64(&mut w, self.request_time);
        write_i64(&mut w, self.timestamp);
        let out = writer_to_vec(&w);
        assert(out@ =~= s2 + (i64_be(self.request_time) + i64_be(self.timestamp)));
        out
    }

    /// Reads the packet from the bytes that follow its id.
    pub fn recv(body: &[u8]) -> (res: Result<ConnectionAccept, PacketError>)
        ensures
            match ConnectionAcceptView::parse(body@) {
                Ok(packet) => res matches Ok(got) && got@ == packet,
                Err(e) => res matches Err(got) && got == e,
            },
    {
        let mut r = reader_from(body);
        let ghost first = PeerAddress::parse(body@);
        let client_address = match PeerAddress::read_from(&mut r) {
            Ok(address) => address,
            Err(e) => { return Err(e); },
        };
        let ghost used = first->Ok_0.1;
        let ghost list = body@.skip(used);
        let mut system_addresses: Vec<PeerAddress> = Vec::new();
        let ghost mut taken: int = 0;
        assert(list.skip(0) =~= list);
        assert(system_addresses@ + Seq::<PeerAddress>::empty() =~= system_addresses@);
        while reader_len(&r) > 16
            invariant
                ConnectionAcceptView::parse(body@) == match parse_addresses(list) {
                    Ok((all, more)) => Ok::<ConnectionAcceptView, PacketError>(
                        ConnectionAcceptView {
                            client_address,
                            system_addresses: all,
                            request_time: i64_from_be(body@.skip(used + more)),
                            timestamp: i64_from_be(body@.skip(used + more).skip(8)),
                        },
                    ),
                    Err(e) => Err::<ConnectionAcceptView, PacketError>(e),
                },
                0 <= taken <= list.len(),
                reader_bytes(r) == list.skip(taken),
                parse_addresses(list) == match parse_addresses(reader_bytes(r)) {
                    Ok((more, rest)) => Ok::<(Seq<PeerAddress>, int), PacketError>(
                        (system_addresses@ + more, taken + rest),
                    ),
                    Err(e) => Err::<(Seq<PeerAddress>, int), PacketError>(e),
                },
            decreases reader_bytes(r).len(),
        {
            let ghost left = reader_bytes(r);
            let ghost done = system_addresses@;
            match PeerAddress::read_from(&mut r) {
                Ok(address) => {
                    system_addresses.push(address);
                    proof {
                        let step = PeerAddress::parse(left)->Ok_0.1;
                        assert(list.skip(taken).skip(step) =~= list.skip(taken + step));
                        match parse_addresses(left.skip(step)) {
                            Ok((more, rest)) => {
                                assert(done + (seq![address] + more) =~= done.push(address) + more);
                            },
                            Err(_) => {},
                        }
                        taken = taken + step;
                    }
                },
                Err(e) => {
                    assert(parse_addresses(left) == Err::<(Seq<PeerAddress>, int), PacketError>(e));
                    return Err(e);
                },
            }
        }
        if reader_len(&r) < 16 {
            assert(parse_addresses(reader_bytes(r)) is Err);
            return Err(PacketError::Truncated);
        }
        assert(parse_addresses(reader_bytes(r)) == Ok::<(Seq<PeerAddress>, int), PacketError>(
            (Seq::empty(), 0),
        ));
        assert(system_addresses@ + Seq::<PeerAddress>::empty() =~= system_addresses@);
        assert(reader_bytes(r) =~= body@.skip(used + taken));
        match (read_i64(&mut r), read_i64(&mut r)) {
            (Some(request_time), Some(timestamp)) => Ok(
                ConnectionAccept { client_address, system_addresses, request_time, timestamp },
            ),
            _ => Err(PacketError::Truncated),
        }
    }
}

} // verus!
