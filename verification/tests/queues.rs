use rakrs::conn::queue::OrderedQueue;
use rakrs::conn::queue::RecoveryQueue;
use rakrs::conn::queue::RecoveryQueueError;

#[test]
fn recovery_queue_hands_out_ascending_indices() {
    let mut queue: RecoveryQueue<u8> = RecoveryQueue::new();
    assert_eq!(queue.insert(1), 0);
    assert_eq!(queue.insert(4), 1);
    assert_eq!(queue.insert(6), 2);
    assert_eq!(queue.recover(0), Ok(&1));
    assert_eq!(queue.recover(1), Ok(&4));
    assert_eq!(queue.recover(2), Ok(&6));
    assert_eq!(queue.recover(1), Ok(&4));
    assert_eq!(queue.recover(4), Err(RecoveryQueueError::Invalid));
    assert_eq!(queue.len(), 3);
    assert_eq!(queue.capacity(), 255);
    assert_eq!(queue.next(), 3);
}

#[test]
fn recovery_queue_evicts_the_oldest_when_full() {
    let mut queue: RecoveryQueue<&str> = RecoveryQueue::with_capacity(2);
    queue.insert("a");
    queue.insert("b");
    assert_eq!(queue.insert("c"), 2);
    assert_eq!(queue.len(), 2);
    assert_eq!(queue.recover(0), Err(RecoveryQueueError::IndexOld));
    assert_eq!(queue.recover(1), Ok(&"b"));
    assert_eq!(queue.recover(2), Ok(&"c"));
    assert_eq!(queue.recover(3), Err(RecoveryQueueError::Invalid));
}

#[test]
fn recovery_queue_remove_drops_one_record() {
    let mut queue: RecoveryQueue<u32> = RecoveryQueue::with_capacity(8);
    for value in 10..15u32 {
        queue.insert(value);
    }
    assert_eq!(queue.remove(2), Some(12));
    assert_eq!(queue.remove(2), None);
    assert_eq!(queue.remove(9), None);
    assert_eq!(queue.recover(2), Err(RecoveryQueueError::IndexOld));
    assert_eq!(queue.recover(1), Ok(&11));
    assert_eq!(queue.recover(3), Ok(&13));
    assert_eq!(queue.len(), 4);
    assert_eq!(queue.insert(15), 5);
}

#[test]
fn recovery_queue_of_capacity_zero_keeps_nothing() {
    let mut queue: RecoveryQueue<u8> = RecoveryQueue::with_capacity(0);
    assert_eq!(queue.insert(7), 0);
    assert_eq!(queue.insert(8), 1);
    assert_eq!(queue.len(), 0);
    assert_eq!(queue.recover(0), Err(RecoveryQueueError::IndexOld));
    assert_eq!(queue.recover(2), Err(RecoveryQueueError::Invalid));
}

#[test]
fn recovery_queue_never_exceeds_its_capacity() {
    let mut queue: RecoveryQueue<u32> = RecoveryQueue::with_capacity(3);
    for value in 0..100u32 {
        let index = queue.insert(value);
        assert_eq!(index, value);
        assert!(queue.len() <= 3);
        assert_eq!(queue.recover(index), Ok(&value));
    }
    assert_eq!(queue.recover(96), Err(RecoveryQueueError::IndexOld));
    assert_eq!(queue.recover(97), Ok(&97));
}

#[test]
fn ordered_queue_reports_missing_indices() {
    let mut queue: OrderedQueue<Vec<u8>> = OrderedQueue::new();
    assert!(queue.insert(vec![0, 1], 1));
    assert!(queue.insert(vec![1, 0], 5));
    assert!(queue.insert(vec![2, 0], 3));
    assert_eq!(queue.get_scope(), 6);
    assert_eq!(queue.flush_missing(), vec![0, 2, 4]);
    assert!(queue.insert(vec![2, 0, 0, 1], 4));
    assert!(queue.insert(vec![1, 0, 0, 2], 2));
    assert_eq!(queue.flush_missing(), vec![0]);
}

#[test]
fn ordered_queue_releases_the_contiguous_prefix() {
    let mut queue: OrderedQueue<u32> = OrderedQueue::new();
    assert!(queue.insert(11, 1));
    assert!(queue.insert(12, 2));
    assert!(queue.insert(14, 4));
    assert_eq!(queue.flush(), Vec::<u32>::new());
    assert!(queue.insert(10, 0));
    assert_eq!(queue.flush(), vec![10, 11, 12]);
    assert_eq!(queue.get_scope(), 2);
    assert_eq!(queue.flush(), Vec::<u32>::new());
    assert!(queue.insert(13, 3));
    assert_eq!(queue.flush(), vec![13, 14]);
    assert_eq!(queue.get_scope(), 0);
}

#[test]
fn ordered_queue_rejects_an_index_below_the_window() {
    let mut queue: OrderedQueue<u8> = OrderedQueue::new();
    for id in 0..5u32 {
        assert!(queue.insert(id as u8, id));
    }
    assert_eq!(queue.flush(), vec![0, 1, 2, 3, 4]);
    assert!(!queue.insert(9, 4));
    assert_eq!(queue.get_scope(), 0);
    assert!(queue.insert(9, 5));
    assert_eq!(queue.get_scope(), 1);
}

#[test]
fn ordered_queue_widens_by_a_million() {
    let mut queue: OrderedQueue<u8> = OrderedQueue::new();
    for id in 0..3u32 {
        assert!(queue.insert(0, id));
    }
    assert!(queue.insert(1, 3 + 1_000_000));
    assert_eq!(queue.get_scope(), 1_000_004);
    let missing = queue.flush_missing();
    assert_eq!(missing.len(), 1_000_000);
    assert_eq!(missing[0], 3);
    assert_eq!(missing[999_999], 1_000_002);
}

#[test]
fn ordered_queue_clone_keeps_window_and_packets() {
    let mut queue: OrderedQueue<u8> = OrderedQueue::new();
    queue.insert(7, 0);
    queue.insert(9, 2);
    let mut copy = queue.clone();
    assert_eq!(copy.get_scope(), 3);
    assert_eq!(copy.flush(), vec![7]);
    assert_eq!(copy.flush_missing(), vec![1]);
    assert_eq!(queue.flush(), vec![7]);
}
