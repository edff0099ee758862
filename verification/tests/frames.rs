use rakrs::protocol::datagram::Datagram;
use rakrs::protocol::frame::Fragment;
use rakrs::protocol::frame::Frame;
use rakrs::protocol::frame::FrameError;
use rakrs::protocol::frame::Reliability;
use rakrs::protocol::offline::PacketError;
use rakrs::protocol::offline::PeerAddress;
use rakrs::protocol::online::ConnectionAccept;
use rakrs::protocol::online::ConnectionRequest;
use rakrs::protocol::online::NewConnection;

fn frame(reliability: Reliability, payload: &[u8]) -> Frame {
    Frame {
        reliability,
        reliable_index: if reliability.reliable() { 0x01_02_03 } else { 0 },
        order_index: if reliability.ordered() || reliability.sequenced() { 0x0a_0b_0c } else { 0 },
        channel: if reliability.ordered() || reliability.sequenced() { 31 } else { 0 },
        fragment: None,
        payload: payload.to_vec(),
    }
}

const MODES: [Reliability; 6] = [
    Reliability::Unreliable,
    Reliability::UnreliableSeq,
    Reliability::Reliable,
    Reliability::ReliableOrd,
    Reliability::ReliableSeq,
    Reliability::UnreliableAck,
];

#[test]
fn reliability_tags_are_stable() {
    for (tag, mode) in MODES.iter().enumerate() {
        assert_eq!(mode.to_byte(), tag as u8);
        assert_eq!(Reliability::from_byte(tag as u8), Some(*mode));
    }
    assert_eq!(Reliability::from_byte(6), None);
    assert_eq!(Reliability::from_byte(7), None);
    assert!(Reliability::ReliableSeq.reliable() && Reliability::ReliableSeq.sequenced());
    assert!(Reliability::ReliableOrd.ordered() && !Reliability::ReliableOrd.sequenced());
    assert!(!Reliability::UnreliableAck.reliable());
}

#[test]
fn reliable_ordered_frame_has_the_documented_layout() {
    let datagram = Datagram {
        sequence: 0x03_02_01,
        frames: vec![frame(Reliability::ReliableOrd, &[0xaa, 0xbb])],
    };
    assert_eq!(
        datagram.to(),
        vec![
            0x80, 0x01, 0x02, 0x03, 0x60, 0x00, 0x10, 0x03, 0x02, 0x01, 0x0c, 0x0b, 0x0a, 31, 0xaa,
            0xbb
        ]
    );
}

#[test]
fn fragment_descriptor_follows_the_indices() {
    let mut split = frame(Reliability::Reliable, &[9]);
    split.fragment = Some(Fragment { compound_size: 4, compound_id: 0x0102, index: 3 });
    let datagram = Datagram { sequence: 5, frames: vec![split] };
    assert!(datagram.has_fragment());
    assert_eq!(
        datagram.to(),
        vec![0x84, 5, 0, 0, 0x50, 0x00, 0x08, 0x03, 0x02, 0x01, 0, 0, 0, 4, 1, 2, 0, 0, 0, 3, 9]
    );
}

#[test]
fn datagram_round_trips_with_every_kind_of_frame() {
    let mut frames = Vec::new();
    for mode in MODES {
        frames.push(frame(mode, &[1, 2, 3]));
        let mut split = frame(mode, &[4, 5, 6, 7]);
        split.fragment = Some(Fragment { compound_size: 9, compound_id: 77, index: 8 });
        frames.push(split);
        frames.push(frame(mode, &[]));
    }
    let datagram = Datagram { sequence: 0xff_ff_ff, frames };
    assert!(datagram.is_valid());
    let bytes = datagram.to();
    assert_eq!(bytes[0], 0x84);
    assert_eq!(Datagram::recv(&bytes), Ok(datagram));
}

#[test]
fn datagram_round_trips_without_frames() {
    let datagram = Datagram { sequence: 0, frames: Vec::new() };
    let bytes = datagram.to();
    assert_eq!(bytes, vec![0x80, 0, 0, 0]);
    assert!(!datagram.has_fragment());
    assert_eq!(Datagram::recv(&bytes), Ok(datagram));
}

#[test]
fn datagram_round_trips_with_the_largest_payload() {
    let datagram =
        Datagram { sequence: 1, frames: vec![frame(Reliability::Unreliable, &[7u8; 8191])] };
    let bytes = datagram.to();
    assert_eq!(&bytes[5..7], &[0xff, 0xf8]);
    assert_eq!(Datagram::recv(&bytes), Ok(datagram));
}

#[test]
fn invalid_frames_are_recognised() {
    assert!(!frame(Reliability::Unreliable, &[0u8; 8192]).is_valid());
    let mut wrong = frame(Reliability::Unreliable, &[1]);
    wrong.reliable_index = 1;
    assert!(!wrong.is_valid());
    let mut wrong = frame(Reliability::ReliableOrd, &[1]);
    wrong.channel = 32;
    assert!(!wrong.is_valid());
    let mut wrong = frame(Reliability::Reliable, &[1]);
    wrong.reliable_index = 0x100_0000;
    assert!(!wrong.is_valid());
    let datagram = Datagram { sequence: 0x100_0000, frames: Vec::new() };
    assert!(!datagram.is_valid());
    let datagram = Datagram { sequence: 0, frames: vec![wrong] };
    assert!(!datagram.is_valid());
}

#[test]
fn malformed_datagrams_are_refused() {
    assert_eq!(Datagram::recv(&[0x80, 0, 0]), Err(FrameError::Truncated));
    assert_eq!(Datagram::recv(&[0x05, 0, 0, 0]), Err(FrameError::NotOnline));
    assert_eq!(Datagram::recv(&[0xc0, 0, 0, 0]), Err(FrameError::WrongKind));
    assert_eq!(Datagram::recv(&[0xa0, 0, 0, 0]), Err(FrameError::WrongKind));
    assert_eq!(Datagram::recv(&[0x80, 0, 0, 0, 0xc0, 0, 0]), Err(FrameError::BadReliability));
    assert_eq!(Datagram::recv(&[0x80, 0, 0, 0, 0x00, 0, 16, 1]), Err(FrameError::Truncated));
    assert_eq!(Datagram::recv(&[0x80, 0, 0, 0, 0x40, 0, 0, 1, 2]), Err(FrameError::Truncated));
    assert_eq!(
        Datagram::recv(&[0x80, 0, 0, 0, 0x60, 0, 0, 1, 2, 3, 4, 5, 6, 32]),
        Err(FrameError::BadChannel)
    );
    assert_eq!(Datagram::recv(&[0x80, 0, 0, 0, 0x00, 0, 8, 1, 0x00]), Err(FrameError::Truncated));
}

#[test]
fn payload_length_in_bits_is_rounded_up() {
    let datagram = Datagram::recv(&[0x8c, 9, 0, 0, 0x00, 0, 9, 1, 2]).unwrap();
    assert_eq!(datagram.sequence, 9);
    assert_eq!(datagram.frames, vec![frame(Reliability::Unreliable, &[1, 2])]);
}

#[test]
fn connection_request_round_trips() {
    let request = ConnectionRequest { client_id: 7, timestamp: 1000 };
    let bytes = request.to();
    assert_eq!(bytes.len(), 17);
    assert_eq!(bytes[0], 0x09);
    assert_eq!(ConnectionRequest::recv(&bytes[1..]), Ok(request));
    assert_eq!(ConnectionRequest::recv(&bytes[1..16]), Err(PacketError::Truncated));
}

#[test]
fn connection_accept_round_trips_with_mixed_addresses() {
    let v4 = PeerAddress::V4 { ip: 0xc0a8_0001, port: 19132 };
    let v6 = PeerAddress::V6 { family: 10, port: 1, flow: 2, ip6: 1, scope: 4 };
    for addresses in [vec![], vec![v4], vec![v6, v4, v6], vec![v4; 20]] {
        let accept = ConnectionAccept {
            client_address: v6,
            system_addresses: addresses,
            request_time: -5,
            timestamp: 99,
        };
        let bytes = accept.to();
        assert_eq!(bytes[0], 0x10);
        assert_eq!(ConnectionAccept::recv(&bytes[1..]), Ok(accept));
    }
}

#[test]
fn connection_accept_with_a_broken_tail_is_refused() {
    let v4 = PeerAddress::V4 { ip: 1, port: 2 };
    let accept = ConnectionAccept {
        client_address: v4,
        system_addresses: vec![v4, v4],
        request_time: 1,
        timestamp: 2,
    };
    let bytes = accept.to();
    assert_eq!(
        ConnectionAccept::recv(&bytes[1..bytes.len() - 1]),
        Err(PacketError::Truncated)
    );
    let mut wrong = bytes.clone();
    wrong[8] = 9;
    assert_eq!(ConnectionAccept::recv(&wrong[1..]), Err(PacketError::BadAddress));
    assert_eq!(ConnectionAccept::recv(&bytes[1..20]), Err(PacketError::Truncated));
}

#[test]
fn new_connection_round_trips() {
    let packet = NewConnection {
        server_address: PeerAddress::V4 { ip: 1, port: 2 },
        system_address: PeerAddress::V6 { family: 23, port: 3, flow: 0, ip6: u128::MAX, scope: 0 },
        request_time: 10,
        timestamp: 20,
    };
    let bytes = packet.to();
    assert_eq!(bytes.len(), 1 + 7 + 29 + 16);
    assert_eq!(NewConnection::recv(&bytes[1..]), Ok(packet));
    assert_eq!(NewConnection::recv(&bytes[1..bytes.len() - 1]), Err(PacketError::Truncated));
}
