//! The client handshake as a state machine.
//!
//! The machine never touches a socket. Its owner sends what `start`,
//! `receive` and `timed_out` hand back, feeds every datagram that arrives to
//! `receive`, and calls `timed_out` whenever the retry interval passes
//! without one. The handshake is over once `is_done` holds.
//!
//! A client goes from `Created` to `Opening` by asking for an MTU, to
//! `SessionOpen` by asking for a session, and to `Completed` by exchanging
//! the connection request, its acceptance and the confirmation over online
//! frames. A step that gets no answer within the allowed number of tries
//! ends in `Failed`; a server that speaks another protocol version ends it
//! in `IncompatibleVersion`.

use crate::protocol::datagram::all_wf;
use crate::protocol::datagram::Datagram;
use crate::protocol::datagram::DatagramView;
use crate::protocol::frame::Frame;
use crate::protocol::frame::FrameView;
use crate::protocol::frame::Reliability;
use crate::protocol::offline::IncompatibleProtocolVersion;
use crate::protocol::offline::OfflinePackets;
use crate::protocol::offline::OpenConnectReply;
use crate::protocol::offline::OpenConnectRequest;
use crate::protocol::offline::PeerAddress;
use crate::protocol::offline::SessionInfo;
use crate::protocol::offline::SessionInfoReply;
use crate::protocol::offline::SMALLEST_REQUEST_MTU;
use crate::protocol::online::ConnectionAccept;
use crate::protocol::online::ConnectionAcceptView;
use crate::protocol::online::ConnectionRequest;
use crate::protocol::online::NewConnection;
use crate::protocol::online::ID_CONNECTION_ACCEPT;
use vstd::prelude::*;
use vstd::slice::slice_subrange;

verus! {

/// The number of tries a step of the handshake is given by default.
pub const DEFAULT_TRIES: u8 = 5;

/// How far a handshake has come.
#[derive(Debug, Clone, Copy, PartialEq, Eq, PartialOrd, Ord, Structural)]
pub enum HandshakeStatus {
    /// Nothing has been sent yet.
    Created,
    /// The MTU is being negotiated.
    Opening,
    /// The session is being opened.
    SessionOpen,
    /// A step got no usable answer.
    Failed,
    /// The server speaks another protocol version.
    IncompatibleVersion,
    /// The session is established.
    Completed,
}

/// What the owner of a handshake has to do after a step.
#[derive(Debug, Clone, PartialEq, Eq)]
pub enum HandshakeAction {
    /// Nothing.
    Wait,
    /// Send these bytes to the server.
    Send(Vec<u8>),
}

impl View for HandshakeAction {
    type V = Option<Seq<u8>>;

    open spec fn view(&self) -> Option<Seq<u8>> {
        match self {
            HandshakeAction::Wait => None,
            HandshakeAction::Send(bytes) => Some(bytes@),
        }
    }
}

/// The request time and timestamp of the `ConnectionAccept` that `payload`
/// is, if it is one.
pub open spec fn accept_times(payload: Seq<u8>) -> Option<(i64, i64)> {
    if payload.len() > 0 && payload[0] == ID_CONNECTION_ACCEPT {
        match ConnectionAcceptView::parse(payload.skip(1)) {
            Ok(accept) => Some((accept.request_time, accept.timestamp)),
            Err(_) => None,
        }
    } else {
        None
    }
}

/// The times of the first frame of `frames` that carries a
/// `ConnectionAccept`.
pub open spec fn first_accept(frames: Seq<FrameView>) -> Option<(i64, i64)>
    decreases frames.len(),
{
    if frames.len() == 0 {
        None
    } else {
        match accept_times(frames[0].payload) {
            Some(times) => Some(times),
            None => first_accept(frames.skip(1)),
        }
    }
}

/// The MTU to ask for after one that got no answer: the same datagram with
/// half the padding.
pub open spec fn halved(mtu: u16) -> u16 {
    (SMALLEST_REQUEST_MTU + (mtu - SMALLEST_REQUEST_MTU) / 2) as u16
}

/// A datagram with the one reliable-ordered frame on channel 0 that carries
/// `payload` under `index`, as sequence number, reliable index and ordering
/// index alike.
pub open spec fn single_frame(index: u32, payload: Seq<u8>) -> DatagramView {
    DatagramView {
        sequence: index,
        frames: seq![
            FrameView {
                reliability: Reliability::ReliableOrd,
                reliable_index: index,
                order_index: index,
                channel: 0,
                fragment: None,
                payload,
            },
        ],
    }
}

/// The state of a client's handshake.
#[derive(Debug, Clone, Copy, PartialEq, Eq, Structural)]
pub struct ClientHandshake {
    pub status: HandshakeStatus,
    /// The client's id.
    pub id: i64,
    /// The protocol version the client speaks.
    pub version: u8,
    /// The MTU the client currently asks for.
    pub mtu: u16,
    /// How many tries each step is given.
    pub attempts: u8,
    /// How many tries of the current step have timed out.
    pub tries: u8,
    /// The address of the server.
    pub server: PeerAddress,
    /// The client's own address.
    pub local: PeerAddress,
    /// Whether the session was granted and the connection request sent.
    pub connecting: bool,
    /// When the connection request was first sent.
    pub request_time: i64,
}

impl ClientHandshake {
    /// The MTU is one that a request can advertise.
    pub open spec fn wf(self) -> bool {
        self.mtu >= SMALLEST_REQUEST_MTU
    }

    /// Whether the handshake is over.
    pub open spec fn done(self) -> bool {
        self.status is Failed || self.status is IncompatibleVersion || self.status is Completed
    }

    /// The same handshake, failed.
    pub open spec fn failed(self) -> ClientHandshake {
        ClientHandshake { status: HandshakeStatus::Failed, ..self }
    }

    /// The request that opens the handshake.
    pub open spec fn open_request(self) -> OpenConnectRequest {
        OpenConnectRequest { protocol: self.version, mtu_size: self.mtu }
    }

    /// The request for a session.
    pub open spec fn session_request(self) -> SessionInfo {
        SessionInfo { address: self.server, mtu: self.mtu, client_id: self.id }
    }

    /// The first online datagram: the connection request.
    pub open spec fn connection_request(self) -> DatagramView {
        single_frame(
            0,
            (ConnectionRequest { client_id: self.id, timestamp: self.request_time }).encoding(),
        )
    }

    /// The second online datagram: the confirmation of an acceptance with
    /// the times `times`.
    pub open spec fn new_connection(self, times: (i64, i64)) -> DatagramView {
        single_frame(
            1,
            (NewConnection {
                server_address: self.server,
                system_address: self.local,
                request_time: times.0,
                timestamp: times.1,
            }).encoding(),
        )
    }

    /// The state after `start` and what is to be sent. Only a handshake
    /// that was just created starts.
    pub open spec fn on_start(self) -> (ClientHandshake, Option<Seq<u8>>) {
        if self.status is Created {
            let next = ClientHandshake { status: HandshakeStatus::Opening, tries: 0, ..self };
            (next, Some(next.open_request().encoding()))
        } else {
            (self, None)
        }
    }

    /// The state after a retry interval has passed without an answer, and
    /// what is to be sent. The step fails once its tries are used up.
    /// Otherwise the pending request is sent again; the opening request is
    /// sent with half the padding, in case the path cannot carry the MTU
    /// asked for.
    pub open spec fn on_timeout(self) -> (ClientHandshake, Option<Seq<u8>>) {
        if self.status is Opening || self.status is SessionOpen {
            if self.tries + 1 >= self.attempts {
                (self.failed(), None)
            } else if self.status is Opening {
                let next = ClientHandshake {
                    tries: (self.tries + 1) as u8,
                    mtu: halved(self.mtu),
                    ..self
                };
                (next, Some(next.open_request().encoding()))
            } else {
                let next = ClientHandshake { tries: (self.tries + 1) as u8, ..self };
                if self.connecting {
                    (next, Some(next.connection_request().encoding()))
                } else {
                    (next, Some(next.session_request().encoding()))
                }
            }
        } else {
            (self, None)
        }
    }

    /// The state after the datagram `bytes` has arrived at time `now`, and
    /// what is to be sent. A datagram that the current step does not expect
    /// is noise and changes nothing.
    pub open spec fn on_datagram(self, bytes: Seq<u8>, now: i64) -> (
        ClientHandshake,
        Option<Seq<u8>>,
    ) {
        if bytes.len() == 0 {
            (self, None)
        } else if self.status is Opening {
            match OfflinePackets::from_byte(bytes[0]) {
                OfflinePackets::IncompatibleProtocolVersion => {
                    match IncompatibleProtocolVersion::parse(bytes.skip(1)) {
                        Ok(_) => (
                            ClientHandshake {
                                status: HandshakeStatus::IncompatibleVersion,
                                ..self
                            },
                            None,
                        ),
                        Err(_) => (self.failed(), None),
                    }
                },
                OfflinePackets::OpenConnectReply => {
                    match OpenConnectReply::parse(bytes.skip(1)) {
                        Ok(_) => {
                            let next = ClientHandshake {
                                status: HandshakeStatus::SessionOpen,
                                tries: 0,
                                ..self
                            };
                            (next, Some(next.session_request().encoding()))
                        },
                        Err(_) => (self.failed(), None),
                    }
                },
                _ => (self, None),
            }
        } else if self.status is SessionOpen && !self.connecting {
            match OfflinePackets::from_byte(bytes[0]) {
                OfflinePackets::SessionInfoReply => {
                    match SessionInfoReply::parse(bytes.skip(1)) {
                        Ok(reply) => {
                            if reply.mtu != self.mtu {
                                (self.failed(), None)
                            } else {
                                let next = ClientHandshake {
                                    connecting: true,
                                    tries: 0,
                                    request_time: now,
                                    ..self
                                };
                                (next, Some(next.connection_request().encoding()))
                            }
                        },
                        Err(_) => (self, None),
                    }
                },
                _ => (self, None),
            }
        } else if self.status is SessionOpen {
            match DatagramView::parse(bytes) {
                Ok(datagram) => match first_accept(datagram.frames) {
                    Some(times) => (
                        ClientHandshake { status: HandshakeStatus::Completed, ..self },
                        Some(self.new_connection(times).encoding()),
                    ),
                    None => (self, None),
                },
                Err(_) => (self, None),
            }
        } else {
            (self, None)
        }
    }

    /// A handshake that has not started, for the client `id` that speaks
    /// protocol `version`, wants the MTU `mtu` and gives every step
    /// `attempts` tries.
    pub fn new(
        id: i64,
        version: u8,
        mtu: u16,
        attempts: u8,
        server: PeerAddress,
        local: PeerAddress,
    ) -> (handshake: Self)
        requires
            mtu >= SMALLEST_REQUEST_MTU,
        ensures
            handshake.wf(),
            handshake == (ClientHandshake {
                status: HandshakeStatus::Created,
                id,
                version,
                mtu,
                attempts,
                tries: 0,
                server,
                local,
                connecting: false,
                request_time: 0,
            }),
    {
        ClientHandshake {
            status: HandshakeStatus::Created,
            id,
            version,
            mtu,
            attempts,
            tries: 0,
            server,
            local,
            connecting: false,
            request_time: 0,
        }
    }

    /// How far the handshake has come.
    pub fn status(&self) -> (status: HandshakeStatus)
        ensures
            status == self.status,
    {
        self.status
    }

    /// Whether the handshake is over.
    pub fn is_done(&self) -> (yes: bool)
        ensures
            yes == self.done(),
    {
        match self.status {
            HandshakeStatus::Failed
            | HandshakeStatus::IncompatibleVersion
            | HandshakeStatus::Completed => true,
            _ => false,
        }
    }

    /// The bytes of the datagram whose one reliable-ordered frame carries
    /// `payload` under `index`.
    fn single_frame_bytes(index: u32, payload: Vec<u8>) -> (out: Vec<u8>)
        requires
            index < 2,
            payload@.len() <= 75,
        ensures
            out@ == single_frame(index, payload@).encoding(),
    {
        let frame = Frame {
            reliability: Reliability::ReliableOrd,
            reliable_index: index,
            order_index: index,
            channel: 0,
            fragment: None,
            payload,
        };
        let mut frames: Vec<Frame> = Vec::new();
        frames.push(frame);
        let datagram = Datagram { sequence: index, frames };
        assert(datagram@.frames =~= single_frame(index, payload@).frames);
        assert(all_wf(datagram@.frames));
        datagram.to()
    }

    /// The bytes of the connection request datagram.
    fn connection_request_bytes(&self) -> (out: Vec<u8>)
        ensures
            out@ == self.connection_request().encoding(),
    {
        let request = ConnectionRequest { client_id: self.id, timestamp: self.request_time };
        proof {
            request.lemma_round_trip();
        }
        Self::single_frame_bytes(0, request.to())
    }

    /// The times of the first `ConnectionAccept` among `frames`.
    fn find_accept(frames: &Vec<Frame>) -> (found: Option<(i64, i64)>)
        ensures
            found == first_accept(crate::protocol::datagram::frame_views(frames@)),
    {
        let ghost all = crate::protocol::datagram::frame_views(frames@);
        assert(all.skip(0) =~= all);
        let mut i: usize = 0;
        while i < frames.len()
            invariant
                i <= frames@.len(),
                all == crate::protocol::datagram::frame_views(frames@),
                first_accept(all) == first_accept(all.skip(i as int)),
            decreases frames@.len() - i,
        {
            let payload = &frames[i].payload;
            assert(all.skip(i as int)[0].payload == payload@);
            assert(all.skip(i as int).skip(1) =~= all.skip(i + 1));
            if payload.len() > 0 && payload[0] == ID_CONNECTION_ACCEPT {
                let body = slice_subrange(payload.as_slice(), 1, payload.len());
                match ConnectionAccept::recv(body) {
                    Ok(accept) => { return Some((accept.request_time, accept.timestamp)); },
                    Err(_) => {},
                }
            }
            i += 1;
        }
        None
    }

    /// Starts the handshake: hands back the opening request.
    pub fn start(&mut self) -> (action: HandshakeAction)
        requires
            old(self).wf(),
        ensures
            final(self).wf(),
            *final(self) == old(self).on_start().0,
            action@ == old(self).on_start().1,
    {
        match self.status {
            HandshakeStatus::Created => {
                self.status = HandshakeStatus::Opening;
                self.tries = 0;
                let request = OpenConnectRequest { protocol: self.version, mtu_size: self.mtu };
                HandshakeAction::Send(request.to())
            },
            _ => HandshakeAction::Wait,
        }
    }

    /// Takes note that the retry interval has passed without an answer.
    pub fn timed_out(&mut self) -> (action: HandshakeAction)
        requires
            old(self).wf(),
        ensures
            final(self).wf(),
            *final(self) == old(self).on_timeout().0,
            action@ == old(self).on_timeout().1,
    {
        match self.status {
            HandshakeStatus::Opening | HandshakeStatus::SessionOpen => {},
            _ => { return HandshakeAction::Wait; },
        }
        if self.tries >= self.attempts || self.tries + 1 >= self.attempts {
            self.status = HandshakeStatus::Failed;
            return HandshakeAction::Wait;
        }
        self.tries = self.tries + 1;
        match self.status {
            HandshakeStatus::Opening => {
                self.mtu = SMALLEST_REQUEST_MTU + (self.mtu - SMALLEST_REQUEST_MTU) / 2;
                let request = OpenConnectRequest { protocol: self.version, mtu_size: self.mtu };
                HandshakeAction::Send(request.to())
            },
            _ => {
                if self.connecting {
                    HandshakeAction::Send(self.connection_request_bytes())
                } else {
                    let request = SessionInfo {
                        address: self.server,
                        mtu: self.mtu,
                        client_id: self.id,
                    };
                    HandshakeAction::Send(request.to())
                }
            },
        }
    }

    /// Takes a datagram that arrived from the server at time `now`.
    pub fn receive(&mut self, bytes: &[u8], now: i64) -> (action: HandshakeAction)
        requires
            old(self).wf(),
        ensures
            final(self).wf(),
            *final(self) == old(self).on_datagram(bytes@, now).0,
            action@ == old(self).on_datagram(bytes@, now).1,
    {
        if bytes.len() == 0 {
            return HandshakeAction::Wait;
        }
        match self.status {
            HandshakeStatus::Opening => {
                let body = slice_subrange(bytes, 1, bytes.len());
                match OfflinePackets::recv(bytes[0]) {
                    OfflinePackets::IncompatibleProtocolVersion => {
                        match IncompatibleProtocolVersion::recv(body) {
                            Ok(_) => { self.status = HandshakeStatus::IncompatibleVersion; },
                            Err(_) => { self.status = HandshakeStatus::Failed; },
                        }
                        HandshakeAction::Wait
                    },
                    OfflinePackets::OpenConnectReply => {
                        match OpenConnectReply::recv(body) {
                            Ok(_) => {
                                self.status = HandshakeStatus::SessionOpen;
                                self.tries = 0;
                                let request = SessionInfo {
                                    address: self.server,
                                    mtu: self.mtu,
                                    client_id: self.id,
                                };
                                HandshakeAction::Send(request.to())
                            },
                            Err(_) => {
                                self.status = HandshakeStatus::Failed;
                                HandshakeAction::Wait
                            },
                        }
                    },
                    _ => HandshakeAction::Wait,
                }
            },
            HandshakeStatus::SessionOpen => {
                if !self.connecting {
                    let body = slice_subrange(bytes, 1, bytes.len());
                    match OfflinePackets::recv(bytes[0]) {
                        OfflinePackets::SessionInfoReply => {
                            match SessionInfoReply::recv(body) {
                                Ok(reply) => {
                                    if reply.mtu != self.mtu {
                                        self.status = HandshakeStatus::Failed;
                                        HandshakeAction::Wait
                                    } else {
                                        self.connecting = true;
                                        self.tries = 0;
                                        self.request_time = now;
                                        HandshakeAction::Send(self.connection_request_bytes())
                                    }
                                },
                                Err(_) => HandshakeAction::Wait,
                            }
                        },
                        _ => HandshakeAction::Wait,
                    }
                } else {
                    match Datagram::recv(bytes) {
                        Ok(datagram) => match Self::find_accept(&datagram.frames) {
                            Some(times) => {
                                let confirmation = NewConnection {
                                    server_address: self.server,
                                    system_address: self.local,
                                    request_time: times.0,
                                    timestamp: times.1,
                                };
                                self.status = HandshakeStatus::Completed;
                                HandshakeAction::Send(
                                    Self::single_frame_bytes(1, confirmation.to()),
                                )
                            },
                            None => HandshakeAction::Wait,
                        },
                        Err(_) => HandshakeAction::Wait,
                    }
                }
            },
            _ => HandshakeAction::Wait,
        }
    }
}

} // verus!
