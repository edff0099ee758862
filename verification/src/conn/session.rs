//! The decisions of a session that depend on nothing but bytes and clocks:
//! where an inbound datagram goes, when to probe a silent peer, and when to
//! give a session up.

use crate::conn::send::Resend;
use crate::protocol::offline::OfflinePackets;
use vstd::prelude::*;

verus! {

/// After how many milliseconds without sending a ping is sent.
pub const PING_AFTER: u64 = 5_000;

/// After how many milliseconds without receiving the peer is probed.
pub const PROBE_AFTER: u64 = 10_000;

/// After how many milliseconds without receiving the session is closed.
pub const IDLE_TIMEOUT: u64 = 30_000;

/// The lowest id of a packet that belongs to the application.
pub const GAME_PACKET: u8 = 0x86;

/// Why a session ended.
#[derive(Debug, Clone, Copy, PartialEq, Eq, Structural)]
pub enum DisconnectReason {
    /// The peer speaks a protocol version that is not accepted.
    ProtocolIncompatible,
    /// The handshake got no answer within its tries.
    HandshakeTimeout,
    /// A reliable datagram was sent as often as allowed without being
    /// acknowledged.
    ReliableExhausted,
    /// Nothing arrived from the peer for `IDLE_TIMEOUT`.
    IdleTimeout,
    /// The peer reported a datagram missing that is no longer remembered.
    RecoveryMiss,
    /// The peer asked for the session to end.
    Requested,
}

/// Where an inbound datagram goes.
#[derive(Debug, Clone, Copy, PartialEq, Eq, Structural)]
pub enum Inbound {
    /// To the offline exchange, as a packet of this kind.
    Offline(OfflinePackets),
    /// To the send queue, as a positive acknowledgement.
    Ack,
    /// To the send queue, as a negative acknowledgement.
    Nack,
    /// To the receive queue, as a datagram of frames.
    Frames,
    /// Nowhere.
    Noise,
}

/// Where a datagram that starts with `first` goes, for a peer whose
/// session is online or not.
///
/// With the top bit set the datagram is an online one: an acknowledgement
/// if bit 6 is set, a negative acknowledgement if bit 5 is, frames
/// otherwise. Online datagrams from a peer without a session are noise.
/// Anything else is an offline packet; one of an unknown kind is noise, and
/// so is any for a peer that is online already, but for a ping.
pub open spec fn route_of(first: u8, online: bool) -> Inbound {
    if first >= 0x80 {
        if !online {
            Inbound::Noise
        } else if first >= 0xc0 {
            Inbound::Ack
        } else if first >= 0xa0 {
            Inbound::Nack
        } else {
            Inbound::Frames
        }
    } else {
        match OfflinePackets::from_byte(first) {
            OfflinePackets::UnknownPacket(_) => Inbound::Noise,
            OfflinePackets::UnconnectedPing => Inbound::Offline(OfflinePackets::UnconnectedPing),
            kind => if online {
                Inbound::Noise
            } else {
                Inbound::Offline(kind)
            },
        }
    }
}

/// Where a datagram that starts with `first` goes.
pub fn route(first: u8, online: bool) -> (inbound: Inbound)
    ensures
        inbound == route_of(first, online),
{
    if first >= 0x80 {
        if !online {
            Inbound::Noise
        } else if first >= 0xc0 {
            Inbound::Ack
        } else if first >= 0xa0 {
            Inbound::Nack
        } else {
            Inbound::Frames
        }
    } else {
        match OfflinePackets::recv(first) {
            OfflinePackets::UnknownPacket(_) => Inbound::Noise,
            OfflinePackets::UnconnectedPing => Inbound::Offline(OfflinePackets::UnconnectedPing),
            kind => if online {
                Inbound::Noise
            } else {
                Inbound::Offline(kind)
            },
        }
    }
}

/// Whether a payload that starts with `id` belongs to the application.
pub fn is_game_packet(id: u8) -> (yes: bool)
    ensures
        yes == (id >= GAME_PACKET),
{
    id >= GAME_PACKET
}

/// What a session does to keep itself alive.
#[derive(Debug, Clone, Copy, PartialEq, Eq, Structural)]
pub enum KeepAlive {
    /// Nothing.
    Nothing,
    /// Send an unreliable ping.
    Ping,
    /// Send a reliable ping.
    Probe,
    /// Close the session for `DisconnectReason::IdleTimeout`.
    Disconnect,
}

/// The milliseconds that have passed since `then`; none if the clock has
/// gone backwards.
pub open spec fn since(now: u64, then: u64) -> u64 {
    if now >= then {
        (now - then) as u64
    } else {
        0
    }
}

/// What a session does at time `now` when it last sent at `last_sent` and
/// last received at `last_received`: it closes after `IDLE_TIMEOUT`
/// without receiving, probes the peer after `PROBE_AFTER` without
/// receiving, and pings after `PING_AFTER` without sending.
pub open spec fn keep_alive_of(now: u64, last_sent: u64, last_received: u64) -> KeepAlive {
    if since(now, last_received) >= IDLE_TIMEOUT {
        KeepAlive::Disconnect
    } else if since(now, last_received) >= PROBE_AFTER {
        KeepAlive::Probe
    } else if since(now, last_sent) >= PING_AFTER {
        KeepAlive::Ping
    } else {
        KeepAlive::Nothing
    }
}

/// What a session does to keep itself alive at time `now`.
pub fn keep_alive(now: u64, last_sent: u64, last_received: u64) -> (action: KeepAlive)
    ensures
        action == keep_alive_of(now, last_sent, last_received),
{
    let silent = if now >= last_received {
        now - last_received
    } else {
        0
    };
    let idle = if now >= last_sent {
        now - last_sent
    } else {
        0
    };
    if silent >= IDLE_TIMEOUT {
        KeepAlive::Disconnect
    } else if silent >= PROBE_AFTER {
        KeepAlive::Probe
    } else if idle >= PING_AFTER {
        KeepAlive::Ping
    } else {
        KeepAlive::Nothing
    }
}

/// Why the session ends when sending a datagram again came to `resend`,
/// if it does: data that is lost for good breaks the promise of
/// reliability.
pub fn verdict_of(resend: &Resend) -> (reason: Option<DisconnectReason>)
    ensures
        reason == match resend {
            Resend::Again(_) | Resend::Nothing => None::<DisconnectReason>,
            Resend::Missing => Some(DisconnectReason::RecoveryMiss),
            Resend::GaveUp => Some(DisconnectReason::ReliableExhausted),
        },
{
    match resend {
        Resend::Again(_) | Resend::Nothing => None,
        Resend::Missing => Some(DisconnectReason::RecoveryMiss),
        Resend::GaveUp => Some(DisconnectReason::ReliableExhausted),
    }
}

/// A session that has received nothing for thirty seconds closes, however
/// recently it has sent; one that has received something within ten
/// seconds never closes.
pub proof fn lemma_idle_timeout(now: u64, last_sent: u64, last_received: u64)
    ensures
        now >= last_received + IDLE_TIMEOUT ==> keep_alive_of(now, last_sent, last_received)
            is Disconnect,
        now < last_received + PROBE_AFTER ==> !(keep_alive_of(now, last_sent, last_received)
            is Disconnect) && !(keep_alive_of(now, last_sent, last_received) is Probe),
{
}

} // verus!
