//! Tests of the ring core: layout arithmetic, initialization, attachment and
//! the non-blocking enqueue / dequeue protocol.

use zeroq::mpmc_queue::{
    align_up, check_base_alignment, compute_required_size, dequeue_claim_decision,
    enqueue_claim_decision, find_pow2_exponent, validate_and_compute_layout, ClaimDecision,
    MpmcQueueError, MpmcQueueOnBuffer,
};

#[test]
fn required_size_formula() {
    // header (32) + cells (capacity * 8) + data (capacity * element_size)
    assert_eq!(compute_required_size(8, 4), 96);
    assert_eq!(compute_required_size(4, 1024), 32 + 8192 + 4096);
    assert_eq!(compute_required_size(1, 2), 32 + 16 + 2);
}

#[test]
fn required_size_deterministic() {
    // two independent computations from equal inputs agree
    assert_eq!(compute_required_size(16, 8), compute_required_size(16, 8));
}

#[test]
fn align_up_values() {
    assert_eq!(align_up(32, 8), 32);
    assert_eq!(align_up(33, 8), 40);
    assert_eq!(align_up(0, 8), 0);
    assert_eq!(align_up(7, 1), 7);
    assert_eq!(align_up(41, 16), 48);
}

#[test]
fn pow2_exponents() {
    assert_eq!(find_pow2_exponent(1), Some(0));
    assert_eq!(find_pow2_exponent(2), Some(1));
    assert_eq!(find_pow2_exponent(4), Some(2));
    assert_eq!(find_pow2_exponent(1024), Some(10));
    assert_eq!(find_pow2_exponent(1 << 63), Some(63));
    assert_eq!(find_pow2_exponent(0), None);
    assert_eq!(find_pow2_exponent(3), None);
    assert_eq!(find_pow2_exponent(6), None);
    assert_eq!(find_pow2_exponent(1000), None);
}

#[test]
fn layout_rejects_capacity_below_two() {
    let buf = vec![0u8; 1024];
    assert_eq!(
        validate_and_compute_layout(&buf, 8, 1),
        Err(MpmcQueueError::BufferTooSmall { required: 2, provided: 1 })
    );
}

#[test]
fn layout_rejects_capacity_not_power_of_two() {
    let buf = vec![0u8; 1024];
    assert_eq!(
        validate_and_compute_layout(&buf, 8, 3),
        Err(MpmcQueueError::BufferSizeNotPowerOfTwo { actual: 3 })
    );
}

#[test]
fn layout_rejects_zero_element_size() {
    let buf = vec![0u8; 1024];
    assert_eq!(
        validate_and_compute_layout(&buf, 0, 4),
        Err(MpmcQueueError::BufferTooSmall { required: 1, provided: 0 })
    );
}

#[test]
fn layout_rejects_short_buffer() {
    let buf = vec![0u8; 95];
    assert_eq!(
        validate_and_compute_layout(&buf, 8, 4),
        Err(MpmcQueueError::BufferTooSmall { required: 96, provided: 95 })
    );
}

#[test]
fn layout_accepts_exact_buffer() {
    let buf = vec![0u8; 96];
    let (header_size, cells_offset, data_offset, required) =
        validate_and_compute_layout(&buf, 8, 4).unwrap();
    assert_eq!(header_size, 32);
    assert_eq!(cells_offset, 32);
    assert_eq!(data_offset, 64);
    assert_eq!(required, 96);
}

#[test]
fn init_writes_header() {
    let buf = vec![0u8; 96];
    let ring = MpmcQueueOnBuffer::init_on_buffer(buf, 8, 4, true).unwrap();
    let h = ring.header();
    assert_eq!(h.element_size, 8);
    assert_eq!(h.buffer_mask, 3);
    assert_eq!(h.enqueue_pos, 0);
    assert_eq!(h.dequeue_pos, 0);
}

#[test]
fn ring_round_trip() {
    let buf = vec![0u8; 96];
    let mut ring = MpmcQueueOnBuffer::init_on_buffer(buf, 8, 4, true).unwrap();
    let record = [1u8, 2, 3, 4, 5, 6, 7, 8];
    assert_eq!(ring.enqueue(&record), Ok(()));
    let mut dst = vec![0u8; 8];
    assert_eq!(ring.dequeue(&mut dst), Ok(()));
    assert_eq!(dst, record.to_vec());
    assert_eq!(ring.dequeue(&mut dst), Err(MpmcQueueError::QueueEmpty));
}

#[test]
fn ring_rejects_wrong_source_length() {
    let buf = vec![0u8; 96];
    let mut ring = MpmcQueueOnBuffer::init_on_buffer(buf, 8, 4, true).unwrap();
    let short = [0u8; 7];
    assert_eq!(
        ring.enqueue(&short),
        Err(MpmcQueueError::InvalidSourceLength { expected: 8, actual: 7 })
    );
}

#[test]
fn ring_rejects_wrong_destination_length() {
    let buf = vec![0u8; 96];
    let mut ring = MpmcQueueOnBuffer::init_on_buffer(buf, 8, 4, true).unwrap();
    ring.enqueue(&[9u8; 8]).unwrap();
    let mut dst = vec![0u8; 9];
    assert_eq!(
        ring.dequeue(&mut dst),
        Err(MpmcQueueError::InvalidDestinationLength { expected: 8, actual: 9 })
    );
}

#[test]
fn ring_reports_full() {
    let buf = vec![0u8; 96];
    let mut ring = MpmcQueueOnBuffer::init_on_buffer(buf, 8, 4, true).unwrap();
    for i in 0..4u8 {
        assert_eq!(ring.enqueue(&[i; 8]), Ok(()));
    }
    assert_eq!(ring.enqueue(&[9u8; 8]), Err(MpmcQueueError::QueueFull));
    // consuming one record frees one slot, and generations advance
    let mut dst = vec![0u8; 8];
    assert_eq!(ring.dequeue(&mut dst), Ok(()));
    assert_eq!(dst, vec![0u8; 8]);
    assert_eq!(ring.enqueue(&[9u8; 8]), Ok(()));
    assert_eq!(ring.enqueue(&[10u8; 8]), Err(MpmcQueueError::QueueFull));
}

#[test]
fn ring_fifo_across_generations() {
    // more records than slots: positions wrap around the ring
    let buf = vec![0u8; 96];
    let mut ring = MpmcQueueOnBuffer::init_on_buffer(buf, 8, 4, true).unwrap();
    let mut dst = vec![0u8; 8];
    for round in 0..10u8 {
        for i in 0..3u8 {
            ring.enqueue(&[round * 3 + i; 8]).unwrap();
        }
        for i in 0..3u8 {
            ring.dequeue(&mut dst).unwrap();
            assert_eq!(dst, vec![round * 3 + i; 8]);
        }
    }
}

#[test]
fn attach_after_init_sees_same_queue() {
    let buf = vec![0u8; 96];
    let mut ring = MpmcQueueOnBuffer::init_on_buffer(buf, 8, 4, true).unwrap();
    ring.enqueue(&[5u8; 8]).unwrap();
    let bytes = ring.into_buffer();
    let mut joined = MpmcQueueOnBuffer::init_on_buffer(bytes, 8, 4, false).unwrap();
    let h = joined.header();
    assert_eq!(h.element_size, 8);
    assert_eq!(h.buffer_mask, 3);
    let mut dst = vec![0u8; 8];
    assert_eq!(joined.dequeue(&mut dst), Ok(()));
    assert_eq!(dst, vec![5u8; 8]);
}

#[test]
fn cell_index_masks_positions() {
    let buf = vec![0u8; 96];
    let ring = MpmcQueueOnBuffer::init_on_buffer(buf, 8, 4, true).unwrap();
    assert_eq!(ring.cell_index(0), 0);
    assert_eq!(ring.cell_index(5), 1);
    assert_eq!(ring.cell_index(7), 3);
    assert_eq!(ring.cell_index(8), 0);
}

#[test]
fn enqueue_claim_decisions() {
    assert_eq!(enqueue_claim_decision(5, 5), ClaimDecision::Claim);
    assert_eq!(enqueue_claim_decision(4, 5), ClaimDecision::Unavailable);
    assert_eq!(enqueue_claim_decision(6, 5), ClaimDecision::Contended);
    // wrapped cursors: the signed difference decides
    assert_eq!(enqueue_claim_decision(0, u64::MAX), ClaimDecision::Contended);
    assert_eq!(enqueue_claim_decision(u64::MAX, 0), ClaimDecision::Unavailable);
}

#[test]
fn dequeue_claim_decisions() {
    assert_eq!(dequeue_claim_decision(6, 5), ClaimDecision::Claim);
    assert_eq!(dequeue_claim_decision(5, 5), ClaimDecision::Unavailable);
    assert_eq!(dequeue_claim_decision(7, 5), ClaimDecision::Contended);
}

#[test]
fn base_alignment_check() {
    assert_eq!(check_base_alignment(0), Ok(()));
    assert_eq!(check_base_alignment(64), Ok(()));
    assert_eq!(
        check_base_alignment(12),
        Err(MpmcQueueError::BufferMisaligned { expected: 8, actual: 4 })
    );
}
