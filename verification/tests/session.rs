use rakrs::conn::fragment::FragmentQueue;
use rakrs::conn::queue::OrderedQueue;
use rakrs::conn::queue::RecoveryQueue;
use rakrs::conn::queue::RecvQueue;
use rakrs::conn::queue::SendQueue;
use rakrs::conn::send::Priority;
use rakrs::conn::send::Resend;
use rakrs::conn::session::is_game_packet;
use rakrs::conn::session::keep_alive;
use rakrs::conn::session::route;
use rakrs::conn::session::verdict_of;
use rakrs::conn::session::DisconnectReason;
use rakrs::conn::session::Inbound;
use rakrs::conn::session::KeepAlive;
use rakrs::protocol::datagram::Datagram;
use rakrs::protocol::frame::Fragment;
use rakrs::protocol::frame::Frame;
use rakrs::protocol::frame::Reliability;
use rakrs::protocol::offline::OfflinePackets;
use rakrs::protocol::offline::UnconnectedPong;

#[test]
fn idle_timeout() {
    let completed = 1_000_000u64;
    assert_eq!(keep_alive(completed + 29_999, completed, completed), KeepAlive::Probe);
    assert_eq!(keep_alive(completed + 30_000, completed, completed), KeepAlive::Disconnect);
    assert_eq!(keep_alive(completed + 30_000, completed + 29_000, completed), KeepAlive::Disconnect);
    assert_eq!(keep_alive(u64::MAX, completed, completed), KeepAlive::Disconnect);
}

#[test]
fn a_quiet_session_pings_then_probes() {
    assert_eq!(keep_alive(4_999, 0, 0), KeepAlive::Nothing);
    assert_eq!(keep_alive(5_000, 0, 0), KeepAlive::Ping);
    assert_eq!(keep_alive(9_999, 0, 0), KeepAlive::Ping);
    assert_eq!(keep_alive(9_999, 6_000, 0), KeepAlive::Nothing);
    assert_eq!(keep_alive(10_000, 6_000, 0), KeepAlive::Probe);
    assert_eq!(keep_alive(12_000, 0, 9_000), KeepAlive::Ping);
    assert_eq!(keep_alive(12_000, 11_000, 9_000), KeepAlive::Nothing);
    assert_eq!(keep_alive(5, 100, 100), KeepAlive::Nothing);
}

#[test]
fn datagrams_are_routed_by_their_first_byte() {
    assert_eq!(route(0x01, false), Inbound::Offline(OfflinePackets::UnconnectedPing));
    assert_eq!(route(0x01, true), Inbound::Offline(OfflinePackets::UnconnectedPing));
    assert_eq!(route(0x05, false), Inbound::Offline(OfflinePackets::OpenConnectRequest));
    assert_eq!(route(0x05, true), Inbound::Noise);
    assert_eq!(route(0x07, false), Inbound::Offline(OfflinePackets::SessionInfo));
    assert_eq!(route(0x42, false), Inbound::Noise);
    assert_eq!(route(0x7f, true), Inbound::Noise);
    assert_eq!(route(0x80, true), Inbound::Frames);
    assert_eq!(route(0x8d, true), Inbound::Frames);
    assert_eq!(route(0x9f, true), Inbound::Frames);
    assert_eq!(route(0xa0, true), Inbound::Nack);
    assert_eq!(route(0xbf, true), Inbound::Nack);
    assert_eq!(route(0xc0, true), Inbound::Ack);
    assert_eq!(route(0xff, true), Inbound::Ack);
    assert_eq!(route(0x84, false), Inbound::Noise);
    assert_eq!(route(0xc0, false), Inbound::Noise);
    assert!(is_game_packet(0x86) && is_game_packet(0xfe) && !is_game_packet(0x85));
}

#[test]
fn lost_data_ends_the_session() {
    assert_eq!(verdict_of(&Resend::Again(vec![1])), None);
    assert_eq!(verdict_of(&Resend::Nothing), None);
    assert_eq!(verdict_of(&Resend::Missing), Some(DisconnectReason::RecoveryMiss));
    assert_eq!(verdict_of(&Resend::GaveUp), Some(DisconnectReason::ReliableExhausted));
}

#[test]
fn queues_are_reachable_beside_the_ordering_window() {
    let mut sender = SendQueue::new(576, 5, 8);
    let mut receiver = RecvQueue::new();
    sender.insert(b"hello", Reliability::ReliableSeq, 4, Priority::Low).unwrap();
    for bytes in sender.flush(0) {
        receiver.insert(&Datagram::recv(&bytes).unwrap(), 0).unwrap();
    }
    assert_eq!(receiver.flush(), vec![b"hello".to_vec()]);
}

#[test]
fn stalled_fragments_are_forgotten() {
    let mut queue = FragmentQueue::new();
    queue.insert(Fragment { compound_size: 2, compound_id: 1, index: 0 }, vec![1], 1_000);
    queue.insert(Fragment { compound_size: 2, compound_id: 2, index: 0 }, vec![2], 6_000);
    queue.expire(10_999, 10_000);
    assert_eq!(queue.len(), 2);
    queue.expire(11_000, 10_000);
    assert_eq!(queue.len(), 1);
    let whole = queue.insert(Fragment { compound_size: 2, compound_id: 2, index: 1 }, vec![3], 11_500);
    assert_eq!(whole, Some(vec![2, 3]));
    let late = queue.insert(Fragment { compound_size: 2, compound_id: 1, index: 1 }, vec![4], 11_500);
    assert_eq!(late, None);
    assert_eq!(queue.len(), 1);
    queue.expire(0, 10_000);
    assert_eq!(queue.len(), 1);
    queue.expire(u64::MAX, 10_000);
    assert_eq!(queue.len(), 0);
}

#[test]
fn receive_queue_forgets_stalled_fragments() {
    let mut receiver = RecvQueue::new();
    let part = |index: u32, sequence: u32| Datagram {
        sequence,
        frames: vec![Frame {
            reliability: Reliability::Unreliable,
            reliable_index: 0,
            order_index: 0,
            channel: 0,
            fragment: Some(Fragment { compound_size: 2, compound_id: 9, index }),
            payload: vec![index as u8],
        }],
    };
    receiver.insert(&part(0, 0), 0).unwrap();
    receiver.expire_fragments(10_000, 10_000);
    receiver.insert(&part(1, 1), 10_001).unwrap();
    assert!(receiver.flush().is_empty());
    receiver.insert(&part(0, 2), 10_002).unwrap();
    assert_eq!(receiver.flush(), vec![vec![0u8, 1]]);
}

#[test]
fn recovery_queue_shows_its_oldest_record() {
    let mut queue: RecoveryQueue<u8> = RecoveryQueue::with_capacity(2);
    assert_eq!(queue.oldest(), None);
    queue.insert(5);
    queue.insert(6);
    assert_eq!(queue.oldest(), Some((0, &5)));
    queue.insert(7);
    assert_eq!(queue.oldest(), Some((1, &6)));
    queue.remove(1);
    assert_eq!(queue.oldest(), Some((2, &7)));
}

#[test]
fn ordered_queue_delivers_as_soon_as_it_can() {
    let mut queue: OrderedQueue<u8> = OrderedQueue::new();
    assert_eq!(queue.deliver(12, 2), Vec::<u8>::new());
    assert_eq!(queue.deliver(11, 1), Vec::<u8>::new());
    assert_eq!(queue.deliver(10, 0), vec![10, 11, 12]);
    assert_eq!(queue.deliver(99, 1), Vec::<u8>::new());
    assert_eq!(queue.deliver(13, 3), vec![13]);
    assert_eq!(queue.get_scope(), 0);
}

#[test]
fn timestamps_are_written_big_endian() {
    let pong = UnconnectedPong { timestamp: 0x0102_0304_0506_0708, server_id: 1, motd: Vec::new() };
    let bytes = pong.to();
    assert_eq!(&bytes[1..9], &[1, 2, 3, 4, 5, 6, 7, 8]);
}
