use rakrs::protocol::offline::clamp;
use rakrs::protocol::offline::handle_offline;
use rakrs::protocol::offline::IncompatibleProtocolVersion;
use rakrs::protocol::offline::OfflineAction;
use rakrs::protocol::offline::OfflinePackets;
use rakrs::protocol::offline::OpenConnectReply;
use rakrs::protocol::offline::OpenConnectRequest;
use rakrs::protocol::offline::PacketError;
use rakrs::protocol::offline::PeerAddress;
use rakrs::protocol::offline::ServerConfig;
use rakrs::protocol::offline::SessionInfo;
use rakrs::protocol::offline::SessionInfoReply;
use rakrs::protocol::offline::UnconnectedPing;
use rakrs::protocol::offline::UnconnectedPong;
use rakrs::protocol::stream::MAGIC;

fn config() -> ServerConfig {
    ServerConfig { server_id: 42, protocol: 11, security: false, motd: b"MCPE;Netrex".to_vec() }
}

fn v4() -> PeerAddress {
    PeerAddress::V4 { ip: 0x7f00_0001, port: 19132 }
}

fn v6() -> PeerAddress {
    PeerAddress::V6 {
        family: 23,
        port: 19133,
        flow: 7,
        ip6: 0x2001_0db8_0000_0000_0000_0000_0000_0001,
        scope: 3,
    }
}

#[test]
fn packet_ids_match_the_wire() {
    assert_eq!(OfflinePackets::recv(0x01), OfflinePackets::UnconnectedPing);
    assert_eq!(OfflinePackets::recv(0x05), OfflinePackets::OpenConnectRequest);
    assert_eq!(OfflinePackets::recv(0x06), OfflinePackets::OpenConnectReply);
    assert_eq!(OfflinePackets::recv(0x07), OfflinePackets::SessionInfo);
    assert_eq!(OfflinePackets::recv(0x08), OfflinePackets::SessionInfoReply);
    assert_eq!(OfflinePackets::recv(0x1c), OfflinePackets::UnconnectedPong);
    assert_eq!(OfflinePackets::recv(0x19), OfflinePackets::IncompatibleProtocolVersion);
    assert_eq!(OfflinePackets::recv(0x84), OfflinePackets::UnknownPacket(0x84));
}

#[test]
fn every_byte_is_the_id_of_its_kind() {
    for byte in 0..=255u8 {
        assert_eq!(OfflinePackets::recv(byte).to_byte(), byte);
    }
}

#[test]
fn open_connect_reply_has_the_documented_layout() {
    let reply = OpenConnectReply { server_id: 42, security: false, mtu: 1400 };
    let bytes = reply.to();
    let mut expected = vec![0x06u8];
    expected.extend_from_slice(&MAGIC);
    expected.extend_from_slice(&[0, 0, 0, 0, 0, 0, 0, 42, 0, 0x05, 0x78]);
    assert_eq!(bytes, expected);
    assert_eq!(OpenConnectReply::recv(&bytes[1..]), Ok(reply));
}

#[test]
fn negative_ids_are_written_in_twos_complement() {
    let reply = OpenConnectReply { server_id: -2, security: true, mtu: 576 };
    let bytes = reply.to();
    assert_eq!(&bytes[17..25], &[0xff, 0xff, 0xff, 0xff, 0xff, 0xff, 0xff, 0xfe]);
    assert_eq!(bytes[25], 1);
    assert_eq!(OpenConnectReply::recv(&bytes[1..]), Ok(reply));
    let ping = UnconnectedPing { timestamp: i64::MIN, client_id: i64::MAX };
    assert_eq!(UnconnectedPing::recv(&ping.to()[1..]), Ok(ping));
}

#[test]
fn open_connect_request_is_padded_to_the_mtu() {
    let request = OpenConnectRequest { protocol: 11, mtu_size: 1400 };
    let bytes = request.to();
    assert_eq!(bytes.len(), 1400 - 28);
    assert_eq!(bytes[0], 0x05);
    assert_eq!(&bytes[1..17], &MAGIC);
    assert_eq!(bytes[17], 11);
    assert!(bytes[18..].iter().all(|b| *b == 0));
    assert_eq!(OpenConnectRequest::recv(&bytes[1..]), Ok(request));
}

#[test]
fn smallest_open_connect_request_has_no_padding() {
    let request = OpenConnectRequest { protocol: 9, mtu_size: 46 };
    let bytes = request.to();
    assert_eq!(bytes.len(), 18);
    assert_eq!(OpenConnectRequest::recv(&bytes[1..]), Ok(request));
}

#[test]
fn open_connect_request_too_long_for_an_mtu_is_refused() {
    let mut body = MAGIC.to_vec();
    body.push(11);
    body.resize(65_507, 0);
    assert_eq!(OpenConnectRequest::recv(&body), Err(PacketError::Oversized));
    body.truncate(65_506);
    assert_eq!(
        OpenConnectRequest::recv(&body),
        Ok(OpenConnectRequest { protocol: 11, mtu_size: 65_535 })
    );
}

#[test]
fn ipv4_address_is_seven_bytes_with_inverted_octets() {
    let info = SessionInfo { address: v4(), mtu: 1400, client_id: 7 };
    let bytes = info.to();
    assert_eq!(bytes.len(), 1 + 16 + 7 + 2 + 8);
    assert_eq!(&bytes[17..24], &[4, 0x80, 0xff, 0xff, 0xfe, 0x4a, 0xbc]);
    assert_eq!(SessionInfo::recv(&bytes[1..]), Ok(info));
}

#[test]
fn ipv6_address_is_twenty_nine_bytes() {
    let info = SessionInfo { address: v6(), mtu: 1200, client_id: -1 };
    let bytes = info.to();
    assert_eq!(bytes.len(), 1 + 16 + 29 + 2 + 8);
    assert_eq!(bytes[17], 6);
    assert_eq!(&bytes[18..20], &[0, 23]);
    assert_eq!(&bytes[20..22], &[0x4a, 0xbd]);
    assert_eq!(&bytes[22..26], &[0, 0, 0, 7]);
    assert_eq!(
        &bytes[26..42],
        &[0x20, 0x01, 0x0d, 0xb8, 0, 0, 0, 0, 0, 0, 0, 0, 0, 0, 0, 1]
    );
    assert_eq!(&bytes[42..46], &[0, 0, 0, 3]);
    assert_eq!(SessionInfo::recv(&bytes[1..]), Ok(info));
}

#[test]
fn session_info_reply_round_trips_with_both_address_families() {
    for address in [v4(), v6()] {
        let reply =
            SessionInfoReply { server_id: 42, client_address: address, mtu: 1400, security: true };
        let bytes = reply.to();
        assert_eq!(bytes[0], 0x08);
        assert_eq!(SessionInfoReply::recv(&bytes[1..]), Ok(reply));
    }
}

#[test]
fn incompatible_protocol_version_round_trips() {
    let packet = IncompatibleProtocolVersion { server_protocol: 11, server_id: 42 };
    let bytes = packet.to();
    assert_eq!(bytes.len(), 26);
    assert_eq!(bytes[0], 0x19);
    assert_eq!(bytes[17], 11);
    assert_eq!(IncompatibleProtocolVersion::recv(&bytes[1..]), Ok(packet));
}

#[test]
fn ping_and_pong_round_trip() {
    let ping = UnconnectedPing { timestamp: 1000, client_id: 7 };
    let bytes = ping.to();
    assert_eq!(bytes.len(), 33);
    assert_eq!(&bytes[9..25], &MAGIC);
    assert_eq!(UnconnectedPing::recv(&bytes[1..]), Ok(ping));

    let pong = UnconnectedPong { timestamp: u64::MAX - 1, server_id: 42, motd: b"hello".to_vec() };
    let bytes = pong.to();
    assert_eq!(bytes[0], 0x1c);
    assert_eq!(&bytes[33..35], &[0, 5]);
    assert_eq!(&bytes[35..], b"hello");
    assert_eq!(UnconnectedPong::recv(&bytes[1..]), Ok(pong));
}

#[test]
fn pong_with_a_short_description_is_truncated() {
    let pong = UnconnectedPong { timestamp: 1, server_id: 2, motd: b"hello".to_vec() };
    let bytes = pong.to();
    assert_eq!(UnconnectedPong::recv(&bytes[1..bytes.len() - 1]), Err(PacketError::Truncated));
}

#[test]
fn a_wrong_sentinel_is_refused() {
    let mut bytes = OpenConnectReply { server_id: 1, security: false, mtu: 1400 }.to();
    bytes[16] ^= 1;
    assert_eq!(OpenConnectReply::recv(&bytes[1..]), Err(PacketError::BadMagic));
    let mut bytes = UnconnectedPing { timestamp: 1, client_id: 2 }.to();
    bytes[9] = 1;
    assert_eq!(UnconnectedPing::recv(&bytes[1..]), Err(PacketError::BadMagic));
}

#[test]
fn short_packets_are_truncated() {
    let bytes = OpenConnectReply { server_id: 1, security: false, mtu: 1400 }.to();
    assert_eq!(OpenConnectReply::recv(&bytes[1..27]), Err(PacketError::Truncated));
    assert_eq!(OpenConnectReply::recv(&[]), Err(PacketError::Truncated));
    let bytes = SessionInfo { address: v4(), mtu: 1400, client_id: 7 }.to();
    assert_eq!(SessionInfo::recv(&bytes[1..bytes.len() - 1]), Err(PacketError::Truncated));
    assert_eq!(SessionInfo::recv(&bytes[1..20]), Err(PacketError::Truncated));
}

#[test]
fn an_unknown_address_family_is_refused() {
    let mut bytes = SessionInfo { address: v4(), mtu: 1400, client_id: 7 }.to();
    bytes[17] = 5;
    assert_eq!(SessionInfo::recv(&bytes[1..]), Err(PacketError::BadAddress));
}

#[test]
fn any_nonzero_byte_reads_as_true() {
    let mut bytes = OpenConnectReply { server_id: 1, security: true, mtu: 1400 }.to();
    bytes[25] = 0x80;
    assert_eq!(
        OpenConnectReply::recv(&bytes[1..]),
        Ok(OpenConnectReply { server_id: 1, security: true, mtu: 1400 })
    );
}

#[test]
fn mtu_is_clamped_to_the_session_range() {
    assert_eq!(clamp(0), 576);
    assert_eq!(clamp(575), 576);
    assert_eq!(clamp(576), 576);
    assert_eq!(clamp(1400), 1400);
    assert_eq!(clamp(1500), 1500);
    assert_eq!(clamp(1501), 1500);
    assert_eq!(clamp(u16::MAX), 1500);
}

#[test]
fn server_answers_a_ping_with_a_pong() {
    let ping = UnconnectedPing { timestamp: 5, client_id: 7 }.to();
    let action = handle_offline(&config(), 90_000, v4(), OfflinePackets::recv(ping[0]), &ping[1..]);
    let expected =
        UnconnectedPong { timestamp: 90_000, server_id: 42, motd: b"MCPE;Netrex".to_vec() };
    assert_eq!(action, OfflineAction::Reply(expected.to()));
}

#[test]
fn server_grants_a_compatible_request() {
    let request = OpenConnectRequest { protocol: 11, mtu_size: 1400 }.to();
    let action =
        handle_offline(&config(), 0, v4(), OfflinePackets::recv(request[0]), &request[1..]);
    let expected = OpenConnectReply { server_id: 42, security: false, mtu: 1400 };
    assert_eq!(action, OfflineAction::Reply(expected.to()));
}

#[test]
fn server_clamps_the_mtu_it_grants() {
    let request = OpenConnectRequest { protocol: 11, mtu_size: 4000 }.to();
    let action =
        handle_offline(&config(), 0, v4(), OfflinePackets::OpenConnectRequest, &request[1..]);
    let expected = OpenConnectReply { server_id: 42, security: false, mtu: 1500 };
    assert_eq!(action, OfflineAction::Reply(expected.to()));
}

#[test]
fn server_refuses_an_incompatible_version() {
    let request = OpenConnectRequest { protocol: 9, mtu_size: 1400 }.to();
    let action =
        handle_offline(&config(), 0, v4(), OfflinePackets::OpenConnectRequest, &request[1..]);
    let expected = IncompatibleProtocolVersion { server_protocol: 11, server_id: 42 };
    assert_eq!(action, OfflineAction::Reply(expected.to()));
}

#[test]
fn server_opens_a_session_on_session_info() {
    let info = SessionInfo { address: v6(), mtu: 1400, client_id: 7 }.to();
    let action = handle_offline(&config(), 0, v4(), OfflinePackets::SessionInfo, &info[1..]);
    let reply =
        SessionInfoReply { server_id: 42, client_address: v4(), mtu: 1400, security: false };
    assert_eq!(action, OfflineAction::Accept { reply: reply.to(), client_id: 7, mtu: 1400 });
}

#[test]
fn server_discards_noise() {
    let reply = OpenConnectReply { server_id: 1, security: false, mtu: 1400 }.to();
    for kind in [
        OfflinePackets::OpenConnectReply,
        OfflinePackets::SessionInfoReply,
        OfflinePackets::UnconnectedPong,
        OfflinePackets::IncompatibleProtocolVersion,
        OfflinePackets::UnknownPacket(0x84),
    ] {
        assert_eq!(handle_offline(&config(), 0, v4(), kind, &reply[1..]), OfflineAction::Discard);
    }
    assert_eq!(
        handle_offline(&config(), 0, v4(), OfflinePackets::UnconnectedPing, &[1, 2, 3]),
        OfflineAction::Discard
    );
    assert_eq!(
        handle_offline(&config(), 0, v4(), OfflinePackets::SessionInfo, &reply[1..]),
        OfflineAction::Discard
    );
    assert!(config().is_valid());
}
