use rakrs::conn::fragment::split;
use rakrs::conn::fragment::FragmentQueue;
use rakrs::conn::framing::frames_for;
use rakrs::conn::framing::room;
use rakrs::conn::framing::rto;
use rakrs::conn::framing::smooth;
use rakrs::conn::pending::PendingSet;
use rakrs::conn::queue::SequencedQueue;
use rakrs::conn::recv::RecvError;
use rakrs::conn::recv::RecvQueue;
use rakrs::conn::send::Priority;
use rakrs::conn::send::Resend;
use rakrs::conn::send::SendError;
use rakrs::conn::send::SendQueue;
use rakrs::conn::window::DedupWindow;
use rakrs::conn::window::Verdict;
use rakrs::protocol::datagram::Datagram;
use rakrs::protocol::frame::Fragment;
use rakrs::protocol::frame::Frame;
use rakrs::protocol::frame::Reliability;

fn payload(length: usize, seed: u8) -> Vec<u8> {
    (0..length).map(|i| (i as u8).wrapping_mul(31).wrapping_add(seed)).collect()
}

fn deliver(receiver: &mut RecvQueue, bytes: &[u8]) -> Verdict {
    let datagram = Datagram::recv(bytes).unwrap();
    receiver.insert(&datagram, 0).unwrap()
}

#[test]
fn split_pieces_join_to_the_payload() {
    for (length, max) in [(0usize, 5usize), (1, 5), (5, 5), (6, 5), (10, 5), (11, 5), (5000, 1348)] {
        let data = payload(length, 3);
        let parts = split(&data, max);
        assert_eq!(parts.len(), if length == 0 { 1 } else { (length + max - 1) / max });
        assert!(parts.iter().all(|part| part.len() <= max));
        assert_eq!(parts.concat(), data);
    }
}

#[test]
fn payload_at_the_capacity_is_one_frame_and_one_more_byte_is_two() {
    let capacity = room(1400, Reliability::ReliableOrd, false);
    assert_eq!(capacity, 1400 - 28 - 4 - 10);
    assert_eq!(room(1400, Reliability::ReliableOrd, true), 1400 - 28 - 4 - 20);
    assert_eq!(room(1400, Reliability::Unreliable, false), 1400 - 28 - 4 - 3);
    assert_eq!(room(u16::MAX, Reliability::Unreliable, false), 8191);

    let whole = frames_for(&payload(capacity, 0), Reliability::ReliableOrd, 0, 5, 6, 7, 1400);
    assert_eq!(whole.len(), 1);
    assert_eq!(whole[0].fragment, None);
    assert_eq!(whole[0].reliable_index, 5);
    assert_eq!(whole[0].order_index, 6);

    let data = payload(capacity + 1, 0);
    let two = frames_for(&data, Reliability::ReliableOrd, 0, 5, 6, 7, 1400);
    assert_eq!(two.len(), 2);
    assert_eq!(two[0].fragment, Some(Fragment { compound_size: 2, compound_id: 7, index: 0 }));
    assert_eq!(two[1].fragment, Some(Fragment { compound_size: 2, compound_id: 7, index: 1 }));
    assert_eq!(two[0].reliable_index, 5);
    assert_eq!(two[1].reliable_index, 6);
    assert_eq!(two[0].order_index, 6);
    assert_eq!(two[1].order_index, 6);
    assert_eq!([two[0].payload.clone(), two[1].payload.clone()].concat(), data);

    let mut sender = SendQueue::new(1400, 5, 255);
    sender.insert(&payload(capacity, 0), Reliability::ReliableOrd, 0, Priority::Normal).unwrap();
    let sent = sender.flush(0);
    assert_eq!(sent.len(), 1);
    assert_eq!(sent[0].len(), 1400 - 28);
    sender.insert(&data, Reliability::ReliableOrd, 0, Priority::Normal).unwrap();
    let sent = sender.flush(0);
    assert_eq!(sent.len(), 2);
    assert!(sent.iter().all(|bytes| bytes.len() <= 1400 - 28));
}

#[test]
fn reliable_indices_of_fragments_wrap() {
    let data = payload(3000, 0);
    let frames = frames_for(&data, Reliability::Reliable, 0, 0xff_ffff, 0, 1, 1400);
    assert_eq!(frames.len(), 3);
    assert_eq!(frames[0].reliable_index, 0xff_ffff);
    assert_eq!(frames[1].reliable_index, 0);
    assert_eq!(frames[2].reliable_index, 1);
    assert!(frames.iter().all(|frame| frame.is_valid()));
}

#[test]
fn fragments_are_put_together_in_any_order() {
    let data = payload(5000, 9);
    let parts = split(&data, 1348);
    let mut queue = FragmentQueue::new();
    for index in [2u32, 0, 3] {
        let fragment = Fragment { compound_size: 4, compound_id: 8, index };
        assert_eq!(queue.insert(fragment, parts[index as usize].clone(), 0), None);
    }
    assert_eq!(queue.len(), 1);
    let fragment = Fragment { compound_size: 4, compound_id: 8, index: 2 };
    assert_eq!(queue.insert(fragment, parts[2].clone(), 0), None);
    let fragment = Fragment { compound_size: 4, compound_id: 8, index: 1 };
    assert_eq!(queue.insert(fragment, parts[1].clone(), 0), Some(data));
    assert_eq!(queue.len(), 0);
}

#[test]
fn fragments_that_cannot_belong_are_dropped() {
    let mut queue = FragmentQueue::new();
    let fragment = Fragment { compound_size: 2, compound_id: 1, index: 2 };
    assert_eq!(queue.insert(fragment, vec![1], 0), None);
    let fragment = Fragment { compound_size: 0, compound_id: 1, index: 0 };
    assert_eq!(queue.insert(fragment, vec![1], 0), None);
    assert_eq!(queue.len(), 0);
    let fragment = Fragment { compound_size: 2, compound_id: 1, index: 0 };
    assert_eq!(queue.insert(fragment, vec![1], 0), None);
    let fragment = Fragment { compound_size: 3, compound_id: 1, index: 1 };
    assert_eq!(queue.insert(fragment, vec![2], 0), None);
    assert_eq!(queue.len(), 1);
    let fragment = Fragment { compound_size: 2, compound_id: 1, index: 1 };
    assert_eq!(queue.insert(fragment, vec![3], 0), Some(vec![1, 3]));
    let fragment = Fragment { compound_size: 1, compound_id: 2, index: 0 };
    assert_eq!(queue.insert(fragment, vec![4], 0), Some(vec![4]));
}

#[test]
fn window_tells_fresh_filled_duplicate_and_stale() {
    let mut window = DedupWindow::new(4);
    assert_eq!(window.observe(0), Verdict::Fresh);
    assert_eq!(window.observe(0), Verdict::Duplicate);
    assert_eq!(window.observe(3), Verdict::Fresh);
    assert_eq!(window.expected(), 4);
    assert_eq!(window.check(1), Verdict::Filled);
    assert_eq!(window.observe(1), Verdict::Filled);
    assert_eq!(window.observe(1), Verdict::Duplicate);
    assert_eq!(window.observe(9), Verdict::Fresh);
    assert_eq!(window.observe(2), Verdict::Stale);
    assert_eq!(window.observe(5), Verdict::Stale);
    assert_eq!(window.observe(6), Verdict::Filled);
    assert_eq!(window.observe(9), Verdict::Duplicate);
    assert_eq!(window.width(), 4);
}

#[test]
fn window_passes_over_the_wrap() {
    let mut window = DedupWindow::new(2);
    assert_eq!(window.observe(0xff_fffd), Verdict::Stale);
    assert_eq!(window.observe(0xff_fffe), Verdict::Filled);
    let mut window = DedupWindow::new(2048);
    assert_eq!(window.observe(0x7f_ffff), Verdict::Fresh);
    assert_eq!(window.observe(0xff_fffe), Verdict::Fresh);
    assert_eq!(window.observe(0xff_ffff), Verdict::Fresh);
    assert_eq!(window.expected(), 0);
    assert_eq!(window.distance(0), 0);
    assert_eq!(window.observe(0), Verdict::Fresh);
    assert_eq!(window.expected(), 1);
    assert_eq!(window.observe(0xff_ffff), Verdict::Duplicate);
    assert_eq!(window.observe(0xff_fffd), Verdict::Filled);
    assert_eq!(window.observe(2), Verdict::Fresh);
    assert_eq!(window.observe(1), Verdict::Filled);
    assert_eq!(window.observe(0), Verdict::Duplicate);
}

#[test]
fn sequenced_queue_drops_what_arrives_late() {
    let mut queue = SequencedQueue::new();
    assert!(queue.accept(0));
    assert!(!queue.accept(0));
    assert!(queue.accept(5));
    assert!(!queue.accept(3));
    assert!(!queue.accept(5));
    assert!(queue.accept(6));
}

#[test]
fn pending_set_keeps_order_and_uniqueness() {
    let mut set = PendingSet::new();
    for x in [5u32, 1, 9, 5, 3, 1] {
        set.insert(x);
    }
    assert!(set.contains(9) && !set.contains(4));
    set.remove(9);
    set.remove(4);
    assert_eq!(set.len(), 3);
    assert_eq!(set.take(), vec![1, 3, 5]);
    assert_eq!(set.len(), 0);
}

#[test]
fn retransmission_timeout_is_three_round_trips_within_bounds() {
    assert_eq!(rto(0), 50);
    assert_eq!(rto(16), 50);
    assert_eq!(rto(17), 51);
    assert_eq!(rto(100), 300);
    assert_eq!(rto(1000), 3000);
    assert_eq!(rto(1001), 3000);
    assert_eq!(rto(u64::MAX), 3000);
    assert_eq!(smooth(0, 80), 10);
    assert_eq!(smooth(80, 80), 80);
    assert_eq!(smooth(100, 20), 90);
    assert_eq!(smooth(u64::MAX, u64::MAX), u64::MAX);
}

#[test]
fn fragmented_reliable() {
    let data = payload(5000, 1);
    let mut sender = SendQueue::new(1400, 5, 255);
    let mut receiver = RecvQueue::new();
    sender.insert(&data, Reliability::ReliableOrd, 0, Priority::Normal).unwrap();
    let sent = sender.flush(0);
    assert_eq!(sent.len(), 4);
    let mut ids = Vec::new();
    for (i, bytes) in sent.iter().enumerate() {
        assert!(bytes.len() <= 1400 - 28);
        let datagram = Datagram::recv(bytes).unwrap();
        assert_eq!(datagram.sequence, i as u32);
        assert_eq!(datagram.frames.len(), 1);
        let fragment = datagram.frames[0].fragment.unwrap();
        assert_eq!(fragment.compound_size, 4);
        assert_eq!(fragment.index, i as u32);
        assert_eq!(datagram.frames[0].channel, 0);
        ids.push(fragment.compound_id);
        assert_eq!(receiver.insert(&datagram, 0), Ok(Verdict::Fresh));
        if i < 3 {
            assert!(receiver.flush().is_empty());
        }
    }
    assert!(ids.iter().all(|id| *id == ids[0]));
    assert_eq!(receiver.flush(), vec![data]);
    assert_eq!(receiver.flush_acks(), vec![0, 1, 2, 3]);
    assert!(receiver.flush_nacks().is_empty());
    for sequence in 0..4 {
        assert!(sender.ack(sequence, 40));
    }
    assert_eq!(sender.unacknowledged(), 0);
}

#[test]
fn loss_and_retransmit() {
    let mut sender = SendQueue::new(1400, 5, 255);
    let mut receiver = RecvQueue::new();
    let mut wire = Vec::new();
    for i in 0..10u8 {
        sender.insert(&[i, i, i], Reliability::ReliableOrd, 0, Priority::Normal).unwrap();
        wire.extend(sender.flush(1000));
    }
    assert_eq!(wire.len(), 10);
    for (i, bytes) in wire.iter().enumerate() {
        if i != 3 {
            deliver(&mut receiver, bytes);
        }
    }
    assert_eq!(receiver.flush(), vec![vec![0u8; 3], vec![1; 3], vec![2; 3]]);
    assert_eq!(receiver.flush_acks(), vec![0, 1, 2, 4, 5, 6, 7, 8, 9]);
    assert_eq!(receiver.flush_nacks(), vec![3]);

    for sequence in [0u32, 1, 2, 4, 5, 6, 7, 8, 9] {
        assert!(sender.ack(sequence, 1040));
    }
    assert_eq!(sender.round_trip(), 26);
    assert_eq!(sender.unacknowledged(), 1);
    let again = match sender.nack(3, 1050) {
        Resend::Again(bytes) => bytes,
        other => panic!("not sent again: {:?}", other),
    };
    let datagram = Datagram::recv(&again).unwrap();
    assert_eq!(datagram.sequence, 10);
    assert_eq!(datagram.frames, Datagram::recv(&wire[3]).unwrap().frames);
    assert_eq!(deliver(&mut receiver, &again), Verdict::Fresh);
    let rest: Vec<Vec<u8>> = (3..10u8).map(|i| vec![i; 3]).collect();
    assert_eq!(receiver.flush(), rest);
    assert_eq!(receiver.flush_acks(), vec![10]);
    assert!(receiver.flush_nacks().is_empty());
    assert!(sender.ack(10, 1090));
    assert_eq!(sender.round_trip(), 34);
    assert_eq!(sender.unacknowledged(), 0);
}

#[test]
fn duplicate_suppression() {
    let mut sender = SendQueue::new(1400, 5, 255);
    let mut receiver = RecvQueue::new();
    sender.insert(b"once", Reliability::ReliableOrd, 0, Priority::Normal).unwrap();
    let sent = sender.flush(0);
    assert_eq!(deliver(&mut receiver, &sent[0]), Verdict::Fresh);
    assert_eq!(receiver.flush_acks(), vec![0]);
    assert_eq!(deliver(&mut receiver, &sent[0]), Verdict::Duplicate);
    assert_eq!(receiver.flush_acks(), vec![0]);
    assert_eq!(receiver.flush(), vec![b"once".to_vec()]);
    assert!(receiver.flush().is_empty());
    assert_eq!(sender.unacknowledged(), 1);

    assert_eq!(deliver(&mut receiver, &sent[0]), Verdict::Duplicate);
    assert_eq!(deliver(&mut receiver, &sent[0]), Verdict::Duplicate);
    assert_eq!(receiver.flush_acks(), vec![0]);
    assert!(receiver.flush().is_empty());
}

#[test]
fn a_reliable_frame_sent_again_is_delivered_once() {
    let mut receiver = RecvQueue::new();
    let frame = Frame {
        reliability: Reliability::Reliable,
        reliable_index: 0,
        order_index: 0,
        channel: 0,
        fragment: None,
        payload: vec![1, 2, 3],
    };
    let first = Datagram { sequence: 0, frames: vec![frame.clone()] };
    let again = Datagram { sequence: 1, frames: vec![frame] };
    assert_eq!(receiver.insert(&first, 0), Ok(Verdict::Fresh));
    assert_eq!(receiver.insert(&again, 0), Ok(Verdict::Fresh));
    assert_eq!(receiver.flush(), vec![vec![1, 2, 3]]);
    assert_eq!(receiver.flush_acks(), vec![0, 1]);
}

#[test]
fn receiver_routes_by_reliability() {
    let mut receiver = RecvQueue::new();
    let frame = |mode: Reliability, reliable: u32, order: u32, channel: u8, byte: u8| Frame {
        reliability: mode,
        reliable_index: reliable,
        order_index: order,
        channel,
        fragment: None,
        payload: vec![byte],
    };
    let datagram = Datagram {
        sequence: 0,
        frames: vec![
            frame(Reliability::ReliableOrd, 0, 1, 2, 11),
            frame(Reliability::Unreliable, 0, 0, 0, 20),
            frame(Reliability::UnreliableSeq, 0, 4, 2, 30),
            frame(Reliability::ReliableSeq, 1, 2, 2, 31),
            frame(Reliability::ReliableOrd, 2, 0, 3, 40),
            frame(Reliability::ReliableOrd, 3, 0, 2, 10),
            frame(Reliability::UnreliableAck, 0, 0, 0, 50),
        ],
    };
    assert_eq!(receiver.insert(&datagram, 0), Ok(Verdict::Fresh));
    assert_eq!(
        receiver.flush(),
        vec![vec![20u8], vec![30], vec![40], vec![10], vec![11], vec![50]]
    );
}

#[test]
fn receiver_refuses_a_malformed_datagram() {
    let mut receiver = RecvQueue::new();
    let datagram = Datagram {
        sequence: 0,
        frames: vec![Frame {
            reliability: Reliability::ReliableOrd,
            reliable_index: 0,
            order_index: 0,
            channel: 40,
            fragment: None,
            payload: vec![1],
        }],
    };
    assert_eq!(receiver.insert(&datagram, 0), Err(RecvError::Malformed));
    assert!(receiver.flush_acks().is_empty());
}

#[test]
fn receiver_reports_only_the_gap_within_its_window() {
    let mut receiver = RecvQueue::new();
    let empty = |sequence: u32| Datagram { sequence, frames: Vec::new() };
    assert_eq!(receiver.insert(&empty(2), 0), Ok(Verdict::Fresh));
    assert_eq!(receiver.flush_nacks(), vec![0, 1]);
    assert_eq!(receiver.insert(&empty(1), 0), Ok(Verdict::Filled));
    assert_eq!(receiver.insert(&empty(5000), 0), Ok(Verdict::Fresh));
    let missing = receiver.flush_nacks();
    assert_eq!(missing.len(), 2047);
    assert_eq!(missing[0], 5000 - 2047);
    assert_eq!(missing[2046], 4999);
    assert_eq!(receiver.insert(&empty(0), 0), Ok(Verdict::Stale));
    assert_eq!(receiver.flush_acks(), vec![0, 1, 2, 5000]);
}

#[test]
fn sender_honours_priorities_and_packs_under_the_mtu() {
    let mut sender = SendQueue::new(576, 5, 255);
    sender.insert(&[3u8; 100], Reliability::Unreliable, 0, Priority::Low).unwrap();
    sender.insert(&[2u8; 100], Reliability::Unreliable, 0, Priority::Normal).unwrap();
    sender.insert(&[1u8; 100], Reliability::Unreliable, 0, Priority::Immediate).unwrap();
    for _ in 0..5 {
        sender.insert(&[4u8; 100], Reliability::Unreliable, 0, Priority::Low).unwrap();
    }
    assert!(!sender.is_idle());
    let sent = sender.flush(0);
    assert!(sender.is_idle());
    assert_eq!(sent.len(), 2);
    let first = Datagram::recv(&sent[0]).unwrap();
    let second = Datagram::recv(&sent[1]).unwrap();
    assert_eq!(first.frames.len(), 5);
    assert_eq!(second.frames.len(), 3);
    assert_eq!(sent[0].len(), 4 + 5 * 103);
    let bytes: Vec<u8> = first.frames.iter().map(|frame| frame.payload[0]).collect();
    assert_eq!(bytes, vec![1, 2, 3, 4, 4]);
    assert_eq!((first.sequence, second.sequence), (0, 1));
}

#[test]
fn sender_assigns_indices_per_channel() {
    let mut sender = SendQueue::new(1400, 5, 255);
    sender.insert(b"a", Reliability::ReliableOrd, 1, Priority::Normal).unwrap();
    sender.insert(b"b", Reliability::ReliableOrd, 2, Priority::Normal).unwrap();
    sender.insert(b"c", Reliability::ReliableOrd, 1, Priority::Normal).unwrap();
    sender.insert(b"d", Reliability::UnreliableSeq, 1, Priority::Normal).unwrap();
    sender.insert(b"e", Reliability::Reliable, 9, Priority::Normal).unwrap();
    let sent = sender.flush(0);
    let frames = Datagram::recv(&sent[0]).unwrap().frames;
    let seen: Vec<(u32, u32, u8)> =
        frames.iter().map(|f| (f.reliable_index, f.order_index, f.channel)).collect();
    assert_eq!(seen, vec![(0, 0, 1), (1, 0, 2), (2, 1, 1), (0, 0, 1), (3, 0, 0)]);
}

#[test]
fn sender_refuses_what_it_cannot_queue() {
    let mut sender = SendQueue::new(1400, 5, 255);
    assert_eq!(
        sender.insert(b"x", Reliability::Reliable, 32, Priority::Normal),
        Err(SendError::BadChannel)
    );
    assert!(sender.is_idle());
}

#[test]
fn sender_stalls_when_the_recovery_window_is_full() {
    let mut sender = SendQueue::new(576, 5, 2);
    for i in 0..3u8 {
        sender.insert(&[i; 500], Reliability::Reliable, 0, Priority::Normal).unwrap();
    }
    assert_eq!(sender.flush(0).len(), 2);
    assert_eq!(sender.unacknowledged(), 2);
    assert!(!sender.is_idle());
    assert!(sender.flush(0).is_empty());
    assert!(sender.ack(0, 10));
    let sent = sender.flush(20);
    assert_eq!(sent.len(), 1);
    assert_eq!(Datagram::recv(&sent[0]).unwrap().sequence, 2);
    assert!(sender.is_idle());
}

#[test]
fn an_acknowledged_datagram_is_never_sent_again() {
    let mut sender = SendQueue::new(1400, 5, 255);
    sender.insert(b"x", Reliability::Reliable, 0, Priority::Normal).unwrap();
    sender.flush(0);
    assert!(sender.ack(0, 10));
    assert!(!sender.ack(0, 20));
    assert_eq!(sender.nack(0, 30), Resend::Missing);
    assert_eq!(sender.expire(100_000), None);
    assert_eq!(sender.nack(7, 30), Resend::Missing);
}

#[test]
fn an_overdue_datagram_is_sent_again_until_given_up() {
    let mut sender = SendQueue::new(1400, 2, 255);
    sender.insert(b"x", Reliability::Reliable, 0, Priority::Normal).unwrap();
    let first = sender.flush(1000);
    assert_eq!(sender.expire(1050), None);
    let second = match sender.expire(1051) {
        Some(Resend::Again(bytes)) => bytes,
        other => panic!("not sent again: {:?}", other),
    };
    assert_eq!(Datagram::recv(&second).unwrap().sequence, 1);
    assert_eq!(
        Datagram::recv(&second).unwrap().frames,
        Datagram::recv(&first[0]).unwrap().frames
    );
    assert_eq!(sender.expire(1060), None);
    assert!(matches!(sender.expire(1102), Some(Resend::Again(_))));
    assert_eq!(sender.expire(1200), Some(Resend::GaveUp));
    assert_eq!(sender.unacknowledged(), 0);
    assert_eq!(sender.expire(5000), None);
}

#[test]
fn round_trip_is_measured_from_the_first_send() {
    let mut sender = SendQueue::new(1400, 5, 255);
    sender.insert(b"x", Reliability::Reliable, 0, Priority::Normal).unwrap();
    sender.flush(100);
    assert!(matches!(sender.nack(0, 110), Resend::Again(_)));
    assert!(!sender.ack(0, 500));
    assert_eq!(sender.round_trip(), 0);
    assert!(sender.ack(1, 900));
    assert_eq!(sender.round_trip(), 100);
}

#[test]
fn unreliable_frames_are_never_sent_again() {
    let mut sender = SendQueue::new(1400, 5, 255);
    sender.insert(b"u", Reliability::Unreliable, 0, Priority::Normal).unwrap();
    sender.insert(b"s", Reliability::UnreliableSeq, 0, Priority::Normal).unwrap();
    assert_eq!(sender.flush(0).len(), 1);
    assert_eq!(sender.unacknowledged(), 1);
    assert_eq!(sender.expire(10_000), Some(Resend::Nothing));
    assert_eq!(sender.unacknowledged(), 0);

    sender.insert(b"u", Reliability::Unreliable, 0, Priority::Normal).unwrap();
    sender.insert(b"r", Reliability::ReliableOrd, 3, Priority::Normal).unwrap();
    sender.insert(b"a", Reliability::UnreliableAck, 0, Priority::Normal).unwrap();
    let first = sender.flush(20_000);
    assert_eq!(Datagram::recv(&first[0]).unwrap().frames.len(), 3);
    let again = match sender.nack(1, 20_010) {
        Resend::Again(bytes) => Datagram::recv(&bytes).unwrap(),
        other => panic!("not sent again: {:?}", other),
    };
    assert_eq!(again.sequence, 2);
    assert_eq!(again.frames.len(), 1);
    assert_eq!(again.frames[0].payload, b"r".to_vec());
    assert_eq!(again.frames[0].reliability, Reliability::ReliableOrd);
    assert_eq!(sender.nack(0, 20_020), Resend::Missing);
}
