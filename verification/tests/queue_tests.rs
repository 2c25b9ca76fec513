use broker::errors::ErrorCode;
use broker::net::queue::{
    held_bytes, message_bytes_for, queue_bytes, table_bytes, timestamp_of, MessageMeta, Queue, QueueMessage,
};
use broker::net::queue_config::{NetQueueConfig, QueueConfig};
use bytes::BytesMut;

fn bytes(payload: &[u8]) -> BytesMut {
    BytesMut::from(payload)
}

fn filled(payloads: &[&[u8]]) -> Queue {
    let mut queue = Queue::new();
    for payload in payloads {
        queue.enqueue_at(bytes(payload), 9, 1000).unwrap();
    }
    queue
}

fn next(queue: &mut Queue, client: u128) -> (u128, Vec<u8>) {
    let (delivery, id) = queue.lock_to_read(client).unwrap();
    (id.unwrap(), delivery[56..].to_vec())
}

#[test]
fn delivery_tells_all_about_the_message() {
    let mut queue = filled(&[b"payload"]);
    let (delivery, id) = queue.lock_to_read(7).unwrap();
    let mut expected = Vec::new();
    expected.extend_from_slice(&1u128.to_be_bytes());
    expected.extend_from_slice(&9u128.to_be_bytes());
    expected.extend_from_slice(&1000u64.to_be_bytes());
    expected.extend_from_slice(&7u128.to_be_bytes());
    expected.extend_from_slice(b"payload");
    assert_eq!(delivery, expected);
    assert_eq!(id, Some(1));
}

#[test]
fn the_clock_gives_the_time() {
    let mut queue = Queue::new();
    queue.enqueue(bytes(b"x"), 1).unwrap();
    let list = queue.list_messages().unwrap();
    assert!(list[0].timestamp > 1_600_000_000_000);
    queue.requeue(1, 1).unwrap();
    assert!(queue.list_messages().unwrap()[0].timestamp > 1_600_000_000_000);
}

#[test]
fn a_clock_before_the_epoch_gives_zero() {
    assert_eq!(timestamp_of(Some(1_700_000_000_123)), 1_700_000_000_123);
    assert_eq!(timestamp_of(Some(0)), 0);
    assert_eq!(timestamp_of(None), 0);
}

#[test]
fn messages_come_in_order_each_once() {
    let mut queue = filled(&[b"a", b"b", b"c"]);
    assert_eq!(next(&mut queue, 1), (1, b"a".to_vec()));
    assert_eq!(next(&mut queue, 2), (2, b"b".to_vec()));
    queue.enqueue_at(bytes(b"d"), 9, 1).unwrap();
    assert_eq!(next(&mut queue, 1), (3, b"c".to_vec()));
    assert_eq!(next(&mut queue, 3), (4, b"d".to_vec()));
    assert_eq!(queue.lock_to_read(1), Err(ErrorCode::QueueIsEmpty));
}

#[test]
fn acknowledged_messages_leave_the_others() {
    let mut queue = filled(&[b"a", b"bb", b"ccc"]);
    next(&mut queue, 1);
    next(&mut queue, 1);
    assert_eq!(queue.dequeue(1, None), Ok(1));
    assert_eq!(queue.dequeue(1, None), Ok(2));
    assert_eq!(queue.dequeue(1, None), Err(ErrorCode::NoSuchMessageIdLocked));
    assert_eq!(queue.dequeue(2, None), Err(ErrorCode::MessageNotLockedByClient));
    assert_eq!(next(&mut queue, 2), (3, b"ccc".to_vec()));
}

#[test]
fn empty_queues_refuse() {
    let mut queue = Queue::new();
    assert_eq!(queue.lock_to_read(1), Err(ErrorCode::QueueIsEmpty));
    assert_eq!(queue.dequeue(1, None), Err(ErrorCode::QueueIsEmpty));
    assert_eq!(queue.dequeue(1, Some(1)), Err(ErrorCode::QueueIsEmpty));
    assert_eq!(queue.unlock(1, None), Err(ErrorCode::QueueIsEmpty));
    assert_eq!(queue.requeue(1, 1), Err(ErrorCode::QueueIsEmpty));
    assert_eq!(queue.update_message(1, bytes(b"x")), Err(ErrorCode::QueueIsEmpty));
    assert!(!queue.is_locked(1, 1));
}

#[test]
fn given_back_messages_come_again() {
    let mut queue = filled(&[b"a", b"b"]);
    next(&mut queue, 1);
    next(&mut queue, 1);
    // The lock held longest goes first.
    queue.unlock(1, None).unwrap();
    assert!(!queue.is_locked(1, 1));
    assert!(queue.is_locked(1, 2));
    assert_eq!(next(&mut queue, 2), (1, b"a".to_vec()));
    // A message can be named.
    assert_eq!(queue.unlock(1, Some(1)), Err(ErrorCode::MessageNotLockedByClient));
    assert_eq!(queue.unlock(3, None), Err(ErrorCode::MessageNotLockedByClient));
    queue.unlock(1, Some(2)).unwrap();
    assert_eq!(queue.unlock(1, None), Ok(()));
    assert_eq!(next(&mut queue, 3), (2, b"b".to_vec()));
}

#[test]
fn delivery_goes_on_past_a_gap() {
    let mut queue = filled(&[b"a", b"b", b"c"]);
    queue.dequeue(1, Some(2)).unwrap();
    assert_eq!(next(&mut queue, 1), (1, b"a".to_vec()));
    assert_eq!(next(&mut queue, 1), (3, b"c".to_vec()));
    assert_eq!(queue.lock_to_read(2), Err(ErrorCode::QueueIsEmpty));
    queue.enqueue_at(bytes(b"d"), 9, 1).unwrap();
    queue.dequeue(1, None).unwrap();
    assert_eq!(next(&mut queue, 2), (4, b"d".to_vec()));
}

#[test]
fn locks_on_a_deleted_message_are_gone() {
    let mut queue = filled(&[b"a", b"b"]);
    next(&mut queue, 1);
    queue.dequeue(2, Some(1)).unwrap();
    assert!(!queue.is_locked(1, 1));
    assert_eq!(queue.unlock(1, Some(1)), Err(ErrorCode::MessageNotLockedByClient));
    assert_eq!(queue.dequeue(1, None), Err(ErrorCode::NoSuchMessageIdLocked));
    assert_eq!(queue.get_total_messages(), Ok(1));
    assert_eq!(queue.get_total_messages_locked(), Ok(0));
    assert_eq!(next(&mut queue, 2), (2, b"b".to_vec()));
}

#[test]
fn an_unknown_id_removes_nothing() {
    let mut queue = filled(&[b"a"]);
    next(&mut queue, 1);
    assert_eq!(queue.dequeue(1, Some(99)), Err(ErrorCode::NoSuchMessageId));
    assert_eq!(queue.get_total_messages(), Ok(1));
    assert!(queue.is_locked(1, 1));
    assert_eq!(queue.dequeue(1, Some(0)), Err(ErrorCode::NoSuchMessageId));
}

#[test]
fn messages_can_be_taken_out_by_id() {
    let mut queue = filled(&[b"a", b"bb", b"ccc"]);
    assert_eq!(queue.dequeue(5, Some(2)), Ok(2));
    assert_eq!(next(&mut queue, 1), (1, b"a".to_vec()));
    assert_eq!(queue.get_total_messages(), Ok(2));
    assert_eq!(queue.dequeue(5, Some(2)), Err(ErrorCode::NoSuchMessageId));
    assert_eq!(queue.dequeue(5, None), Err(ErrorCode::MessageNotLockedByClient));
}

#[test]
fn deleting_the_next_message_moves_on() {
    let mut queue = filled(&[b"a", b"b"]);
    queue.dequeue(5, Some(1)).unwrap();
    assert_eq!(next(&mut queue, 1), (2, b"b".to_vec()));
}

#[test]
fn requeued_messages_get_a_new_id() {
    let mut queue = filled(&[b"a", b"b"]);
    queue.requeue_at(1, 1, 5).unwrap();
    assert_eq!(queue.requeue_at(1, 1, 5), Err(ErrorCode::MessageNotInQueue));
    assert_eq!(next(&mut queue, 1), (2, b"b".to_vec()));
    assert_eq!(next(&mut queue, 1), (3, b"a".to_vec()));
    let mut list = queue.list_messages().unwrap();
    list.sort_by_key(|meta| meta.id);
    assert_eq!((list[1].id, list[1].publisher_id, list[1].timestamp), (3, 9, 5));
}

#[test]
fn new_messages_replace_none() {
    let mut queue = filled(&[b"a", b"b"]);
    next(&mut queue, 1);
    next(&mut queue, 2);
    queue.dequeue(2, None).unwrap();
    queue.enqueue_at(bytes(b"new"), 9, 1).unwrap();
    assert_eq!(queue.get_total_messages(), Ok(2));
    assert_eq!(queue.dequeue(1, None), Ok(1));
    assert_eq!(next(&mut queue, 3), (3, b"new".to_vec()));
}

#[test]
fn requeuing_behind_a_gap_loses_nothing() {
    let mut queue = filled(&[b"a", b"b"]);
    queue.dequeue(1, Some(2)).unwrap();
    assert_eq!(queue.requeue(1, 1), Ok(()));
    assert_eq!(queue.get_total_messages(), Ok(1));
    assert_eq!(next(&mut queue, 1), (3, b"a".to_vec()));
}

#[test]
fn emptied_queues_go_on_counting() {
    let mut queue = Queue::new();
    for round in 0..30u8 {
        queue.enqueue_at(bytes(&[round]), 9, 1).unwrap();
        assert_eq!(next(&mut queue, 1), (round as u128 + 1, vec![round]));
        queue.dequeue(1, None).unwrap();
    }
    assert_eq!(queue.get_total_messages(), Ok(0));
}

#[test]
fn long_rows_of_tombstones_are_drained() {
    let mut queue = Queue::new();
    for i in 0..25u8 {
        queue.enqueue_at(bytes(&[i]), 9, 1).unwrap();
    }
    for i in 0..25u8 {
        assert_eq!(next(&mut queue, 1), (i as u128 + 1, vec![i]));
        queue.dequeue(1, None).unwrap();
    }
    // Too few tombstones are left to be drained.
    assert_eq!(queue.dequeue(1, None), Err(ErrorCode::NoSuchMessageIdLocked));
    let mut queue = Queue::new();
    for i in 0..10u8 {
        queue.enqueue_at(bytes(&[i]), 9, 1).unwrap();
    }
    next(&mut queue, 1);
    for _ in 1..10 {
        next(&mut queue, 2);
    }
    for _ in 1..10 {
        queue.dequeue(2, None).unwrap();
    }
    assert_eq!(queue.dequeue(2, None), Err(ErrorCode::NoSuchMessageIdLocked));
    queue.dequeue(1, None).unwrap();
    assert_eq!(queue.dequeue(1, None), Err(ErrorCode::QueueIsEmpty));
}

#[test]
fn updated_payloads_are_delivered() {
    let mut queue = filled(&[b"a"]);
    queue.update_message(1, bytes(b"longer")).unwrap();
    assert_eq!(queue.update_message(2, bytes(b"x")), Err(ErrorCode::MessageNotInQueue));
    assert_eq!(next(&mut queue, 1), (1, b"longer".to_vec()));
}

#[test]
fn the_five_biggest_payloads_are_noted() {
    let mut queue = Queue::new();
    assert_eq!(queue.get_next_biggest_payload(), Ok(0));
    for size in [3usize, 50, 7, 20, 9, 1, 30] {
        queue.enqueue_at(bytes(&vec![0u8; size]), 9, 1).unwrap();
    }
    // The sizes are noted after the answer is given.
    assert_eq!(queue.get_next_biggest_payload(), Ok(0));
    assert_eq!(queue.get_next_biggest_payload(), Ok(50));
    queue.find_biggest_payloads();
    assert_eq!(queue.get_next_biggest_payload(), Ok(50));
}

#[test]
fn locks_are_counted() {
    let mut queue = filled(&[b"a", b"b", b"c"]);
    assert_eq!(queue.get_total_messages_locked(), Ok(0));
    next(&mut queue, 1);
    next(&mut queue, 1);
    next(&mut queue, 2);
    assert_eq!(queue.get_total_messages_locked(), Ok(3));
    queue.dequeue(1, None).unwrap();
    assert_eq!(queue.get_total_messages_locked(), Ok(2));
    assert_eq!(queue.get_total_messages(), Ok(2));
}

#[test]
fn bytes_are_counted() {
    let word = usize::BITS as usize / 8;
    assert_eq!(table_bytes(3), 60 + 3 * word);
    assert_eq!(message_bytes_for(0), 56);
    assert_eq!(message_bytes_for(100), 156);
    assert_eq!(queue_bytes(4, 3, 100, 84), 64 + 60 + 100 + 84);
    assert_eq!(held_bytes(2, 100, 84), 40 + 100 + 84);
    let mut queue = Queue::new();
    assert_eq!(queue.get_total_bytes(), Ok(0));
    assert_eq!(queue.get_total_bytes_locked(), Ok(0));
    queue.enqueue_at(bytes(&[0; 100]), 9, 1).unwrap();
    assert!(queue.get_total_bytes().unwrap() >= 16 + 20 + 156);
    assert_eq!(queue.get_total_bytes_locked(), Ok(0));
    next(&mut queue, 1);
    assert!(queue.get_total_bytes_locked().unwrap() >= 20 + 156 + 20 + word + 16);
    assert!(QueueMessage::new(bytes(&[0; 100]), 1).deep_size_of() >= 156);
}

#[test]
fn byte_counts_stop_at_the_largest_word() {
    assert_eq!(message_bytes_for(usize::MAX - 56), usize::MAX);
    assert_eq!(message_bytes_for(usize::MAX - 10), usize::MAX);
    assert_eq!(table_bytes(usize::MAX), usize::MAX);
    assert_eq!(queue_bytes(usize::MAX, 0, 0, 0), usize::MAX);
    assert_eq!(queue_bytes(1, 1, usize::MAX, 1), usize::MAX);
    assert_eq!(held_bytes(usize::MAX / 20 + 1, 0, 0), usize::MAX);
}

#[test]
fn messages_know_their_holder() {
    let mut message = QueueMessage::new(bytes(b"abc"), 4);
    assert!(!message.is_locked());
    assert!(!(message == 4u128));
    message.lock(7);
    assert!(message.is_locked());
    assert!(message == 7u128);
    assert!(!(message == 4u128));
    assert!(message.deep_size_of() >= 59);
    message.unlock();
    assert!(!message.is_locked());
    let fixed = QueueMessage::with_timestamp(bytes(b"abc"), 4, 11);
    assert!(fixed == fixed.clone());
}

#[test]
fn descriptions_have_56_bytes() {
    let unlocked = MessageMeta::new(1, 2, 3, None).to_be_bytes();
    assert_eq!(unlocked.len(), 56);
    assert_eq!(unlocked[40..], [0xff; 16]);
    let locked = MessageMeta::new(0x0102, 2, 3, Some(4)).to_be_bytes();
    assert_eq!(locked[14..16], [1, 2]);
    assert_eq!(locked[31], 2);
    assert_eq!(locked[39], 3);
    assert_eq!(locked[55], 4);
}

#[test]
fn configurations_travel() {
    let config = QueueConfig::new();
    assert!(!config.auto_fail);
    assert_eq!(config.fail_timeout, 0);
    let both = NetQueueConfig::new(Some(true), Some(258));
    assert_eq!(both.to_be_bytes(), vec![3, 1, 0, 0, 0, 0, 0, 0, 1, 2]);
    assert_eq!(NetQueueConfig::new(None, None).to_be_bytes(), vec![0]);
    assert_eq!(NetQueueConfig::new(Some(false), None).to_be_bytes(), vec![1, 0]);
    assert_eq!(NetQueueConfig::new(None, Some(1)).to_be_bytes(), vec![2, 0, 0, 0, 0, 0, 0, 0, 1]);
    let mut bytes = both.to_be_bytes();
    bytes.push(99);
    let (read, length) = NetQueueConfig::from_be_bytes(bytes).unwrap();
    assert_eq!((read.auto_fail(), read.fail_timeout(), length), (Some(true), Some(258), 10));
    let (read, length) = NetQueueConfig::from_be_bytes(vec![1, 77]).unwrap();
    assert_eq!((read.auto_fail(), read.fail_timeout(), length), (Some(true), None, 2));
    assert!(matches!(NetQueueConfig::from_be_bytes(vec![]), Err(ErrorCode::ConfigBytesEmpty)));
    assert!(matches!(NetQueueConfig::from_be_bytes(vec![1]), Err(ErrorCode::ConfigInvalidAutoFail)));
    assert!(matches!(
        NetQueueConfig::from_be_bytes(vec![3, 1, 0]),
        Err(ErrorCode::ConfigInvalidFailTimeout)
    ));
}

#[test]
fn configurations_are_kept() {
    let mut queue = Queue::new();
    queue.update_config_auto_fail(true);
    queue.update_config_fail_timeout(12);
    assert!(queue.get_config_auto_fail());
    assert_eq!(queue.get_config_fail_timeout(), 12);
}
