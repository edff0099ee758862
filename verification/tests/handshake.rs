use rakrs::client::handshake::ClientHandshake;
use rakrs::client::handshake::HandshakeAction;
use rakrs::client::handshake::HandshakeStatus;
use rakrs::protocol::datagram::Datagram;
use rakrs::protocol::frame::Frame;
use rakrs::protocol::frame::Reliability;
use rakrs::protocol::offline::handle_offline;
use rakrs::protocol::offline::IncompatibleProtocolVersion;
use rakrs::protocol::offline::OfflineAction;
use rakrs::protocol::offline::OfflinePackets;
use rakrs::protocol::offline::OpenConnectReply;
use rakrs::protocol::offline::OpenConnectRequest;
use rakrs::protocol::offline::PeerAddress;
use rakrs::protocol::offline::ServerConfig;
use rakrs::protocol::offline::SessionInfo;
use rakrs::protocol::offline::SessionInfoReply;
use rakrs::protocol::online::ConnectionAccept;
use rakrs::protocol::online::ConnectionRequest;
use rakrs::protocol::online::NewConnection;

fn server_address() -> PeerAddress {
    PeerAddress::V4 { ip: 0x0a00_0001, port: 19132 }
}

fn client_address() -> PeerAddress {
    PeerAddress::V4 { ip: 0x0a00_0002, port: 50000 }
}

fn server() -> ServerConfig {
    ServerConfig { server_id: 42, protocol: 11, security: false, motd: Vec::new() }
}

fn client(version: u8) -> ClientHandshake {
    ClientHandshake::new(7, version, 1400, 5, server_address(), client_address())
}

fn sent(action: HandshakeAction) -> Vec<u8> {
    match action {
        HandshakeAction::Send(bytes) => bytes,
        HandshakeAction::Wait => panic!("nothing was sent"),
    }
}

fn reply(action: OfflineAction) -> Vec<u8> {
    match action {
        OfflineAction::Reply(bytes) => bytes,
        OfflineAction::Accept { reply, .. } => reply,
        OfflineAction::Discard => panic!("the server discarded the packet"),
    }
}

fn accept_datagram(request_time: i64, timestamp: i64) -> Vec<u8> {
    let accept = ConnectionAccept {
        client_address: client_address(),
        system_addresses: vec![server_address(); 10],
        request_time,
        timestamp,
    };
    let frame = Frame {
        reliability: Reliability::ReliableOrd,
        reliable_index: 0,
        order_index: 0,
        channel: 0,
        fragment: None,
        payload: accept.to(),
    };
    Datagram { sequence: 0, frames: vec![frame] }.to()
}

#[test]
fn happy_handshake() {
    let config = server();
    let mut handshake = client(11);
    assert_eq!(handshake.status(), HandshakeStatus::Created);

    let request = sent(handshake.start());
    assert_eq!(handshake.status(), HandshakeStatus::Opening);
    assert_eq!(request, OpenConnectRequest { protocol: 11, mtu_size: 1400 }.to());

    let answer = reply(handle_offline(
        &config,
        0,
        client_address(),
        OfflinePackets::recv(request[0]),
        &request[1..],
    ));
    assert_eq!(answer, OpenConnectReply { server_id: 42, security: false, mtu: 1400 }.to());

    let request = sent(handshake.receive(&answer, 900));
    assert_eq!(handshake.status(), HandshakeStatus::SessionOpen);
    assert_eq!(request, SessionInfo { address: server_address(), mtu: 1400, client_id: 7 }.to());

    let action = handle_offline(
        &config,
        0,
        client_address(),
        OfflinePackets::recv(request[0]),
        &request[1..],
    );
    match &action {
        OfflineAction::Accept { client_id, mtu, .. } => {
            assert_eq!(*client_id, 7);
            assert_eq!(*mtu, 1400);
        }
        _ => panic!("the server opened no session"),
    }
    let answer = reply(action);
    assert_eq!(
        answer,
        SessionInfoReply {
            server_id: 42,
            client_address: client_address(),
            mtu: 1400,
            security: false
        }
        .to()
    );

    let request = sent(handshake.receive(&answer, 1000));
    assert_eq!(handshake.status(), HandshakeStatus::SessionOpen);
    let datagram = Datagram::recv(&request).unwrap();
    assert_eq!(datagram.sequence, 0);
    assert_eq!(datagram.frames.len(), 1);
    assert_eq!(datagram.frames[0].reliability, Reliability::ReliableOrd);
    assert_eq!(datagram.frames[0].channel, 0);
    assert_eq!(
        ConnectionRequest::recv(&datagram.frames[0].payload[1..]),
        Ok(ConnectionRequest { client_id: 7, timestamp: 1000 })
    );

    let confirmation = sent(handshake.receive(&accept_datagram(1000, 2000), 1100));
    assert_eq!(handshake.status(), HandshakeStatus::Completed);
    assert!(handshake.is_done());
    let datagram = Datagram::recv(&confirmation).unwrap();
    assert_eq!(datagram.sequence, 1);
    assert_eq!(datagram.frames[0].reliable_index, 1);
    assert_eq!(datagram.frames[0].payload[0], 0x13);
    assert_eq!(
        NewConnection::recv(&datagram.frames[0].payload[1..]),
        Ok(NewConnection {
            server_address: server_address(),
            system_address: client_address(),
            request_time: 1000,
            timestamp: 2000,
        })
    );
}

#[test]
fn incompatible_version() {
    let config = server();
    let mut handshake = client(9);
    let request = sent(handshake.start());
    let action = handle_offline(
        &config,
        0,
        client_address(),
        OfflinePackets::recv(request[0]),
        &request[1..],
    );
    assert!(matches!(action, OfflineAction::Reply(_)));
    let answer = reply(action);
    assert_eq!(answer, IncompatibleProtocolVersion { server_protocol: 11, server_id: 42 }.to());
    assert_eq!(handshake.receive(&answer, 0), HandshakeAction::Wait);
    assert_eq!(handshake.status(), HandshakeStatus::IncompatibleVersion);
    assert!(handshake.is_done());
}

#[test]
fn opening_fails_after_five_silent_tries() {
    let mut handshake = client(11);
    sent(handshake.start());
    let mut mtu = 1400u16;
    for _ in 0..4 {
        mtu = 46 + (mtu - 46) / 2;
        let again = sent(handshake.timed_out());
        assert_eq!(again, OpenConnectRequest { protocol: 11, mtu_size: mtu }.to());
        assert_eq!(again.len() as u16, mtu - 28);
        assert_eq!(handshake.status(), HandshakeStatus::Opening);
    }
    assert_eq!(mtu, 130);
    assert_eq!(handshake.timed_out(), HandshakeAction::Wait);
    assert_eq!(handshake.status(), HandshakeStatus::Failed);
    assert_eq!(handshake.timed_out(), HandshakeAction::Wait);
    assert_eq!(handshake.status(), HandshakeStatus::Failed);
}

#[test]
fn noise_does_not_use_up_tries() {
    let mut handshake = client(11);
    sent(handshake.start());
    let before = handshake;
    assert_eq!(handshake.receive(&[], 0), HandshakeAction::Wait);
    assert_eq!(handshake.receive(&[0x1c, 1, 2, 3], 0), HandshakeAction::Wait);
    assert_eq!(handshake.receive(&accept_datagram(1, 2), 0), HandshakeAction::Wait);
    let stray = SessionInfoReply {
        server_id: 42,
        client_address: client_address(),
        mtu: 1400,
        security: false,
    };
    assert_eq!(handshake.receive(&stray.to(), 0), HandshakeAction::Wait);
    assert_eq!(handshake, before);
}

#[test]
fn a_broken_reply_fails_the_opening() {
    let mut handshake = client(11);
    sent(handshake.start());
    let mut answer = OpenConnectReply { server_id: 42, security: false, mtu: 1400 }.to();
    answer.truncate(20);
    assert_eq!(handshake.receive(&answer, 0), HandshakeAction::Wait);
    assert_eq!(handshake.status(), HandshakeStatus::Failed);
}

#[test]
fn a_session_reply_with_another_mtu_fails() {
    let mut handshake = client(11);
    sent(handshake.start());
    sent(handshake.receive(&OpenConnectReply { server_id: 42, security: false, mtu: 1400 }.to(), 0));
    let answer = SessionInfoReply {
        server_id: 42,
        client_address: client_address(),
        mtu: 1200,
        security: false,
    };
    assert_eq!(handshake.receive(&answer.to(), 0), HandshakeAction::Wait);
    assert_eq!(handshake.status(), HandshakeStatus::Failed);
}

#[test]
fn pending_requests_are_sent_again_on_timeout() {
    let mut handshake = client(11);
    sent(handshake.start());
    let session =
        sent(handshake.receive(&OpenConnectReply { server_id: 42, security: false, mtu: 1400 }.to(), 0));
    assert_eq!(sent(handshake.timed_out()), session);
    let answer = SessionInfoReply {
        server_id: 42,
        client_address: client_address(),
        mtu: 1400,
        security: false,
    };
    let connect = sent(handshake.receive(&answer.to(), 1000));
    assert_eq!(handshake.tries, 0);
    assert_eq!(sent(handshake.timed_out()), connect);
    assert_eq!(sent(handshake.timed_out()), connect);
    assert_eq!(sent(handshake.timed_out()), connect);
    assert_eq!(sent(handshake.timed_out()), connect);
    assert_eq!(handshake.timed_out(), HandshakeAction::Wait);
    assert_eq!(handshake.status(), HandshakeStatus::Failed);
}

#[test]
fn a_finished_handshake_ignores_everything() {
    let mut handshake = client(9);
    sent(handshake.start());
    handshake.receive(&IncompatibleProtocolVersion { server_protocol: 11, server_id: 42 }.to(), 0);
    let before = handshake;
    assert_eq!(handshake.start(), HandshakeAction::Wait);
    assert_eq!(handshake.timed_out(), HandshakeAction::Wait);
    assert_eq!(
        handshake.receive(&OpenConnectReply { server_id: 1, security: false, mtu: 1400 }.to(), 0),
        HandshakeAction::Wait
    );
    assert_eq!(handshake, before);
}

#[test]
fn statuses_are_ordered_as_declared() {
    assert!(HandshakeStatus::Created < HandshakeStatus::Opening);
    assert!(HandshakeStatus::Opening < HandshakeStatus::SessionOpen);
    assert!(HandshakeStatus::SessionOpen < HandshakeStatus::Failed);
    assert!(HandshakeStatus::Failed < HandshakeStatus::IncompatibleVersion);
    assert!(HandshakeStatus::IncompatibleVersion < HandshakeStatus::Completed);
}
