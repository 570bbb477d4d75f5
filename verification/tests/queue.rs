//! Tests of the queue facade: construction, attach, non-blocking operations,
//! size queries, the close protocol and the wait decision.

use zeroq::mpmc_queue::MpmcQueueError;
use zeroq::queue::{wait_quantum_ms, wait_should_give_up, Queue, QueueError};

#[test]
fn put_get_round_trip() {
    let mut q = Queue::create(8, 4).unwrap();
    let record = [1u8, 2, 3, 4, 5, 6, 7, 8];
    assert_eq!(q.put_nowait(&record), Ok(()));
    assert_eq!(q.get_nowait(), Ok(record.to_vec()));
    assert_eq!(
        q.get_nowait(),
        Err(QueueError::Queue(MpmcQueueError::QueueEmpty))
    );
}

#[test]
fn full_and_empty_signalling() {
    let mut q = Queue::create(4, 2).unwrap();
    assert_eq!(q.put_nowait(&[1u8; 4]), Ok(()));
    assert_eq!(q.put_nowait(&[2u8; 4]), Ok(()));
    // after the 2nd put without any get, a 3rd put reports a full ring
    assert_eq!(
        q.put_nowait(&[3u8; 4]),
        Err(QueueError::Queue(MpmcQueueError::QueueFull))
    );
    // after one get, a 3rd put succeeds
    assert_eq!(q.get_nowait(), Ok(vec![1u8; 4]));
    assert_eq!(q.put_nowait(&[3u8; 4]), Ok(()));
    assert_eq!(q.get_nowait(), Ok(vec![2u8; 4]));
    assert_eq!(q.put_nowait(&[4u8; 4]), Ok(()));
    assert_eq!(q.get_nowait(), Ok(vec![3u8; 4]));
    assert_eq!(q.get_nowait(), Ok(vec![4u8; 4]));
    assert_eq!(
        q.get_nowait(),
        Err(QueueError::Queue(MpmcQueueError::QueueEmpty))
    );
}

#[test]
fn create_rejects_capacity_not_power_of_two() {
    match Queue::create(8, 3) {
        Err(QueueError::Queue(MpmcQueueError::BufferSizeNotPowerOfTwo { actual })) => {
            assert_eq!(actual, 3);
        }
        other => panic!("expected BufferSizeNotPowerOfTwo, got {:?}", other.map(|_| ())),
    }
}

#[test]
fn create_rejects_capacity_below_two() {
    assert!(matches!(
        Queue::create(8, 1),
        Err(QueueError::Queue(MpmcQueueError::BufferTooSmall { required: 2, provided: 1 }))
    ));
    assert!(matches!(
        Queue::create(8, 0),
        Err(QueueError::Queue(MpmcQueueError::BufferTooSmall { required: 2, provided: 0 }))
    ));
}

#[test]
fn create_rejects_zero_element_size() {
    assert!(matches!(
        Queue::create(0, 4),
        Err(QueueError::Queue(MpmcQueueError::BufferTooSmall { required: 1, provided: 0 }))
    ));
}

#[test]
fn create_rejects_oversized_layout() {
    assert_eq!(
        Queue::create(usize::MAX, 2).map(|_| ()),
        Err(QueueError::InvalidParameters)
    );
}

#[test]
fn resolve_create_params_requires_both() {
    assert_eq!(Queue::resolve_create_params(Some(8), Some(4)), Ok((8, 4)));
    assert_eq!(
        Queue::resolve_create_params(None, Some(4)),
        Err(QueueError::InvalidParameters)
    );
    assert_eq!(
        Queue::resolve_create_params(Some(8), None),
        Err(QueueError::InvalidParameters)
    );
    assert_eq!(
        Queue::resolve_create_params(None, None),
        Err(QueueError::InvalidParameters)
    );
}

#[test]
fn wrong_record_length_reports_expected_and_actual() {
    let mut q = Queue::create(16, 4).unwrap();
    assert_eq!(
        q.put_nowait(&[0u8; 15]),
        Err(QueueError::Queue(MpmcQueueError::InvalidSourceLength {
            expected: 16,
            actual: 15
        }))
    );
}

#[test]
fn attach_sees_creator_parameters() {
    let q = Queue::create(4, 1024).unwrap();
    let bytes = q.into_buffer();
    let joined = Queue::attach(bytes).unwrap();
    assert_eq!(joined.element_size(), Ok(4));
    assert_eq!(joined.maxsize(), Ok(1024));
    assert_eq!(joined.len(), Ok(0));
}

#[test]
fn attach_preserves_pending_records() {
    let mut q = Queue::create(2, 4).unwrap();
    q.put_nowait(&[1u8, 2]).unwrap();
    q.put_nowait(&[3u8, 4]).unwrap();
    let bytes = q.into_buffer();
    let mut joined = Queue::attach(bytes).unwrap();
    assert_eq!(joined.len(), Ok(2));
    assert_eq!(joined.get_nowait(), Ok(vec![1u8, 2]));
    assert_eq!(joined.get_nowait(), Ok(vec![3u8, 4]));
}

#[test]
fn fifo_order_of_le_integers() {
    // a single producer and a single consumer exchange 10000 values through
    // a ring of 1024 slots; the values come out in the order they went in
    let mut q = Queue::create(4, 1024).unwrap();
    let mut next_put: u32 = 0;
    let mut next_get: u32 = 0;
    while next_get < 10000 {
        while next_put < 10000 && next_put < next_get + 1024 {
            q.put_nowait(&next_put.to_le_bytes()).unwrap();
            next_put += 1;
        }
        let got = q.get_nowait().unwrap();
        assert_eq!(got, next_get.to_le_bytes().to_vec());
        next_get += 1;
    }
    assert_eq!(q.len(), Ok(0));
}

#[test]
fn attach_rejects_short_region() {
    let q = Queue::create(8, 4).unwrap();
    let mut bytes = q.into_buffer();
    assert_eq!(bytes.len(), 96);
    bytes.truncate(95);
    assert!(matches!(
        Queue::attach(bytes),
        Err(QueueError::Queue(MpmcQueueError::BufferTooSmall { required: 96, provided: 95 }))
    ));
}

#[test]
fn attach_rejects_region_shorter_than_header() {
    assert!(matches!(
        Queue::attach(vec![0u8; 16]),
        Err(QueueError::Queue(MpmcQueueError::BufferTooSmall { required: 32, provided: 16 }))
    ));
}

#[test]
fn attach_rejects_corrupt_cell_state() {
    let q = Queue::create(8, 4).unwrap();
    let mut bytes = q.into_buffer();
    // corrupt the sequence word of slot 0 (bytes 32..40)
    bytes[33] = 0xFF;
    assert_eq!(
        Queue::attach(bytes).map(|_| ()),
        Err(QueueError::InvalidParameters)
    );
}

#[test]
fn attach_rejects_crossed_cursors() {
    let q = Queue::create(8, 4).unwrap();
    let mut bytes = q.into_buffer();
    // set dequeue_pos (bytes 24..32) ahead of enqueue_pos (zero)
    bytes[24] = 1;
    assert_eq!(
        Queue::attach(bytes).map(|_| ()),
        Err(QueueError::InvalidParameters)
    );
}

#[test]
fn len_empty_full_track_occupancy() {
    let mut q = Queue::create(1, 2).unwrap();
    assert_eq!(q.len(), Ok(0));
    assert_eq!(q.empty(), Ok(true));
    assert_eq!(q.full(), Ok(false));
    q.put_nowait(&[7u8]).unwrap();
    assert_eq!(q.len(), Ok(1));
    assert_eq!(q.empty(), Ok(false));
    assert_eq!(q.full(), Ok(false));
    q.put_nowait(&[8u8]).unwrap();
    assert_eq!(q.len(), Ok(2));
    assert_eq!(q.empty(), Ok(false));
    assert_eq!(q.full(), Ok(true));
}

#[test]
fn size_accessors() {
    let q = Queue::create(16, 8).unwrap();
    assert_eq!(q.element_size(), Ok(16));
    assert_eq!(q.maxsize(), Ok(8));
}

#[test]
fn closed_queue_refuses_every_operation() {
    let mut q = Queue::create(8, 4).unwrap();
    q.put_nowait(&[1u8; 8]).unwrap();
    q.close();
    assert_eq!(q.put_nowait(&[2u8; 8]), Err(QueueError::QueueClosed));
    assert_eq!(q.get_nowait(), Err(QueueError::QueueClosed));
    assert_eq!(q.len(), Err(QueueError::QueueClosed));
    assert_eq!(q.empty(), Err(QueueError::QueueClosed));
    assert_eq!(q.full(), Err(QueueError::QueueClosed));
    assert_eq!(q.element_size(), Err(QueueError::QueueClosed));
    assert_eq!(q.maxsize(), Err(QueueError::QueueClosed));
    assert_eq!(q.check_active(), Err(QueueError::QueueClosed));
    // close is idempotent
    q.close();
    assert_eq!(q.check_active(), Err(QueueError::QueueClosed));
}

#[test]
fn wait_decision_boundaries() {
    // give up only once the elapsed time exceeds the timeout
    assert!(!wait_should_give_up(Some(100), 99));
    assert!(!wait_should_give_up(Some(100), 100));
    assert!(wait_should_give_up(Some(100), 101));
    // no timeout means wait indefinitely
    assert!(!wait_should_give_up(None, u64::MAX));
    // zero timeout gives up after the first elapsed millisecond
    assert!(wait_should_give_up(Some(0), 1));
    assert_eq!(wait_quantum_ms(), 1);
}

#[test]
fn no_duplication_no_loss_counts() {
    let mut q = Queue::create(1, 8).unwrap();
    let puts: Vec<u8> = vec![3, 1, 4, 1, 5];
    for b in &puts {
        q.put_nowait(&[*b]).unwrap();
    }
    let mut got = vec![q.get_nowait().unwrap()[0], q.get_nowait().unwrap()[0]];
    // total puts = total gets + pending
    assert_eq!(q.len(), Ok(puts.len() - got.len()));
    while let Ok(v) = q.get_nowait() {
        got.push(v[0]);
    }
    let mut sorted_puts = puts.clone();
    sorted_puts.sort();
    got.sort();
    assert_eq!(got, sorted_puts);
}
