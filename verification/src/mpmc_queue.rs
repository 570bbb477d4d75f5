//! Bounded multi-producer / multi-consumer ring stored in a byte region.
//!
//! The whole queue state lives in one contiguous byte buffer, laid out as
//!
//! | region       | offset                 | size                      |
//! |--------------|------------------------|---------------------------|
//! | header       | 0                      | 32 (four 64-bit words)    |
//! | cells        | 32                     | capacity * 8              |
//! | data         | 32 + capacity * 8      | capacity * element_size   |
//!
//! The header holds `element_size`, `buffer_mask` (= capacity - 1),
//! `enqueue_pos` and `dequeue_pos`. Each cell holds the sequence word of one
//! slot, encoding the slot's generation: a slot whose next producer visit is
//! position `p` is free exactly when its sequence equals `p`, and holds a
//! published record exactly when its sequence equals `p + 1`.

use crate::bytes::{
    eq_outside, lemma_word_at_frame, read_bytes, read_word, word_at, write_bytes, write_word,
};
use vstd::arithmetic::div_mod::{
    lemma_fundamental_div_mod, lemma_fundamental_div_mod_converse_mod, lemma_mod_bound,
    lemma_mod_multiples_vanish, lemma_small_mod,
};
use vstd::arithmetic::mul::{
    lemma_mul_inequality, lemma_mul_is_commutative, lemma_mul_is_distributive_add_other_way,
    lemma_mul_is_distributive_sub, lemma_mul_left_inequality, lemma_mul_nonnegative,
    lemma_mul_upper_bound,
};
use vstd::arithmetic::power2::{lemma2_to64, lemma2_to64_rest, lemma_pow2_adds, lemma_pow2_pos, lemma_pow2_strictly_increases, pow2};
use vstd::bits::{lemma_u64_low_bits_mask_is_mod, lemma_u64_pow2_no_overflow, low_bits_mask};
use vstd::prelude::*;

verus! {

/// Byte size of the region header: four 64-bit words.
pub const HEADER_SIZE: usize = 32;

/// Byte offset of the `element_size` header word.
pub const ELEMENT_SIZE_OFFSET: usize = 0;

/// Byte offset of the `buffer_mask` header word.
pub const BUFFER_MASK_OFFSET: usize = 8;

/// Byte offset of the `enqueue_pos` header word.
pub const ENQUEUE_POS_OFFSET: usize = 16;

/// Byte offset of the `dequeue_pos` header word.
pub const DEQUEUE_POS_OFFSET: usize = 24;

/// Byte size of one stored word, which is also the alignment the region's
/// word-sized fields ask of the region base.
pub const CELL_SIZE: usize = 8;

/// Errors reported by the ring core.
#[derive(Debug, Clone, Copy, PartialEq, Eq, Structural)]
pub enum MpmcQueueError {
    /// An enqueue source buffer whose length differs from `element_size`.
    InvalidSourceLength { expected: usize, actual: usize },
    /// A dequeue destination buffer whose length differs from `element_size`.
    InvalidDestinationLength { expected: usize, actual: usize },
    /// Every slot holds an unconsumed record.
    QueueFull,
    /// No slot holds an unconsumed record.
    QueueEmpty,
    /// The region is shorter than the layout requires (also reported for a
    /// capacity below 2, with `required` = 2, and for a zero element size,
    /// with `required` = 1).
    BufferTooSmall { required: usize, provided: usize },
    /// The region base does not satisfy the required word alignment.
    BufferMisaligned { expected: usize, actual: usize },
    /// The requested capacity is not a power of two.
    BufferSizeNotPowerOfTwo { actual: usize },
}

/// Snapshot of the header fields of a queue region.
#[derive(Debug, Clone, Copy, PartialEq, Eq, Structural)]
pub struct MpmcQueueHeader {
    /// Bytes per record.
    pub element_size: usize,
    /// Capacity minus one; capacity is a power of two, so this masks a
    /// position to its slot index.
    pub buffer_mask: usize,
    /// Monotonic producer cursor.
    pub enqueue_pos: u64,
    /// Monotonic consumer cursor.
    pub dequeue_pos: u64,
}

/// `n` is a power of two that fits in a 64-bit word.
pub open spec fn is_power_of_two(n: int) -> bool {
    exists|k: nat| k < 64 && n == pow2(k)
}

/// `offset` rounded up to the next multiple of `align`.
pub open spec fn spec_align_up(offset: int, align: int) -> int
    recommends
        align >= 1,
{
    ((offset + align - 1) / align) * align
}

/// Least byte length of a region able to hold a queue with the given
/// element size and capacity.
pub open spec fn spec_required_size(element_size: int, capacity: int) -> int {
    HEADER_SIZE + CELL_SIZE * capacity + capacity * element_size
}

/// Returns the exponent of `n` when `n` is a power of two.
pub fn find_pow2_exponent(n: u64) -> (r: Option<usize>)
    ensures
        match r {
            Some(k) => k < 64 && n as int == pow2(k as nat),
            None => !is_power_of_two(n as int),
        },
{
    let mut k: usize = 0;
    let mut p: u64 = 1;
    proof {
        lemma2_to64();
    }
    loop
        invariant
            k < 64,
            p as int == pow2(k as nat),
            forall|j: nat| j < k ==> n as int != pow2(j),
        decreases 64 - k,
    {
        if p == n {
            return Some(k);
        }
        if k == 63 {
            assert forall|j: nat| j < 64 implies n as int != pow2(j) by {
                if j < 63 {
                } else {
                    assert(j == 63);
                }
            }
            return None;
        }
        proof {
            lemma2_to64();
            lemma_pow2_adds(k as nat, 1);
            lemma_u64_pow2_no_overflow((k + 1) as nat);
        }
        p = p * 2;
        k = k + 1;
    }
}

/// The bitwise-and of a value with a mask and with its complement sum back
/// to the value.
proof fn lemma_and_complement(x: u64, m: u64)
    by (bit_vector)
    ensures
        (x & m) + (x & !m) == x,
        x & !m <= x,
{
}

/// For a power-of-two capacity, masking a position with `capacity - 1` is
/// reduction modulo the capacity.
pub proof fn lemma_mask_is_mod(p: u64, k: nat)
    requires
        k < 64,
    ensures
        p & ((pow2(k) - 1) as u64) == p as int % pow2(k) as int,
{
    lemma_u64_pow2_no_overflow(k);
    assert(low_bits_mask(k) == (pow2(k) - 1) as nat);
    lemma_u64_low_bits_mask_is_mod(p, k);
}

/// Aligns `offset` upwards to the nearest multiple of `align`.
#[inline]
pub fn align_up(offset: usize, align: usize) -> (r: usize)
    requires
        is_power_of_two(align as int),
        offset + align - 1 <= usize::MAX,
    ensures
        r as int == spec_align_up(offset as int, align as int),
{
    proof {
        let k = choose|k: nat| k < 64 && align as int == pow2(k);
        lemma_pow2_pos(k);
    }
    let o = offset as u64;
    let a = align as u64;
    let x = o + (a - 1);
    let r64 = x & !(a - 1);
    proof {
        let k = choose|k: nat| k < 64 && align as int == pow2(k);
        lemma_mask_is_mod(x, k);
        lemma_and_complement(x, (a - 1) as u64);
        lemma_fundamental_div_mod(x as int, a as int);
        assert(r64 as int == x as int - x as int % a as int);
        assert(x as int == a as int * (x as int / a as int) + x as int % a as int);
        assert(r64 as int == spec_align_up(offset as int, align as int)) by {
            lemma_mul_is_commutative(a as int, x as int / a as int);
            assert(x as int / a as int == (offset + align - 1) as int / align as int);
        }
    }
    r64 as usize
}

/// Computes the required region size for a queue with the given element size
/// and capacity: a pure function of the layout formula.
pub fn compute_required_size(element_size: usize, capacity: usize) -> (r: usize)
    requires
        spec_required_size(element_size as int, capacity as int) <= usize::MAX,
    ensures
        r as int == spec_required_size(element_size as int, capacity as int),
{
    proof {
        lemma2_to64();
        lemma_mul_nonnegative(capacity as int, element_size as int);
        assert(is_power_of_two(CELL_SIZE as int)) by {
            assert(CELL_SIZE as int == pow2(3));
        }
        assert(is_power_of_two(1int)) by {
            assert(1int == pow2(0));
        }
    }
    let header_size = HEADER_SIZE;
    let cells_offset = align_up(header_size, CELL_SIZE);
    let cells_size = capacity * CELL_SIZE;
    let data_offset = align_up(cells_offset + cells_size, 1);
    let data_size = capacity * element_size;
    data_offset + data_size
}

/// The error, if any, that layout validation reports for a region of
/// `buffer_len` bytes asked to hold a queue with the given element size and
/// capacity. `None` means the layout is valid.
///
/// A required size beyond `usize::MAX` cannot be stated in the error's
/// `required` field; it is reported saturated to `usize::MAX`.
pub open spec fn spec_layout_error(
    buffer_len: usize,
    element_size: usize,
    buffer_size: usize,
) -> Option<MpmcQueueError> {
    if buffer_size < 2 {
        Some(MpmcQueueError::BufferTooSmall { required: 2, provided: buffer_size })
    } else if !is_power_of_two(buffer_size as int) {
        Some(MpmcQueueError::BufferSizeNotPowerOfTwo { actual: buffer_size })
    } else if element_size == 0 {
        Some(MpmcQueueError::BufferTooSmall { required: 1, provided: 0 })
    } else {
        let req = spec_required_size(element_size as int, buffer_size as int);
        if (buffer_len as int) < req {
            Some(
                MpmcQueueError::BufferTooSmall {
                    required: if req > usize::MAX {
                        usize::MAX
                    } else {
                        req as usize
                    },
                    provided: buffer_len,
                },
            )
        } else {
            None
        }
    }
}

/// Validates that `buffer` can hold a queue with the given element size and
/// capacity (`buffer_size` counts slots), and returns the layout: header
/// size, cells offset, data offset and required size.
pub fn validate_and_compute_layout(
    buffer: &Vec<u8>,
    element_size: usize,
    buffer_size: usize,
) -> (r: Result<(usize, usize, usize, usize), MpmcQueueError>)
    ensures
        match r {
            Ok(layout) => {
                &&& spec_layout_error(buffer.len(), element_size, buffer_size) is None
                &&& layout.0 == HEADER_SIZE
                &&& layout.1 == HEADER_SIZE
                &&& layout.2 as int == HEADER_SIZE + CELL_SIZE * buffer_size
                &&& layout.3 as int == spec_required_size(
                    element_size as int,
                    buffer_size as int,
                )
                &&& layout.3 <= buffer.len()
            },
            Err(e) => Some(e) == spec_layout_error(buffer.len(), element_size, buffer_size),
        },
{
    if buffer_size < 2 {
        return Err(MpmcQueueError::BufferTooSmall { required: 2, provided: buffer_size });
    }
    if find_pow2_exponent(buffer_size as u64).is_none() {
        return Err(MpmcQueueError::BufferSizeNotPowerOfTwo { actual: buffer_size });
    }
    if element_size == 0 {
        return Err(MpmcQueueError::BufferTooSmall { required: 1, provided: 0 });
    }
    proof {
        lemma_mul_upper_bound(
            buffer_size as int,
            u64::MAX as int,
            element_size as int,
            u64::MAX as int,
        );
    }
    let data128 = (buffer_size as u128) * (element_size as u128);
    if data128 > (usize::MAX as u128) {
        return Err(
            MpmcQueueError::BufferTooSmall { required: usize::MAX, provided: buffer.len() },
        );
    }
    let req128 = (HEADER_SIZE as u128) + (CELL_SIZE as u128) * (buffer_size as u128) + data128;
    if req128 > (usize::MAX as u128) {
        return Err(
            MpmcQueueError::BufferTooSmall { required: usize::MAX, provided: buffer.len() },
        );
    }
    let required_size = compute_required_size(element_size, buffer_size);
    if buffer.len() < required_size {
        return Err(
            MpmcQueueError::BufferTooSmall { required: required_size, provided: buffer.len() },
        );
    }
    proof {
        lemma2_to64();
        assert(is_power_of_two(CELL_SIZE as int)) by {
            assert(CELL_SIZE as int == pow2(3));
        }
    }
    let header_size = HEADER_SIZE;
    let cells_offset = align_up(header_size, CELL_SIZE);
    let cells_size = buffer_size * CELL_SIZE;
    let data_offset = cells_offset + cells_size;
    Ok((header_size, cells_offset, data_offset, required_size))
}

/// The `element_size` header word of region `b`.
pub open spec fn spec_header_element_size(b: Seq<u8>) -> int {
    word_at(b, ELEMENT_SIZE_OFFSET as int)
}

/// The `buffer_mask` header word of region `b`.
pub open spec fn spec_header_mask(b: Seq<u8>) -> int {
    word_at(b, BUFFER_MASK_OFFSET as int)
}

/// The capacity of region `b`: its mask word plus one.
pub open spec fn spec_capacity(b: Seq<u8>) -> int {
    spec_header_mask(b) + 1
}

/// The producer cursor word of region `b`.
pub open spec fn spec_enqueue_pos(b: Seq<u8>) -> int {
    word_at(b, ENQUEUE_POS_OFFSET as int)
}

/// The consumer cursor word of region `b`.
pub open spec fn spec_dequeue_pos(b: Seq<u8>) -> int {
    word_at(b, DEQUEUE_POS_OFFSET as int)
}

/// Byte offset of the sequence word of slot `i`.
pub open spec fn spec_cell_offset(i: int) -> int {
    HEADER_SIZE + CELL_SIZE * i
}

/// The sequence word of slot `i` in region `b`.
pub open spec fn spec_cell_sequence(b: Seq<u8>, i: int) -> int {
    word_at(b, spec_cell_offset(i))
}

/// Byte offset of the data region of `b`.
pub open spec fn spec_data_offset(b: Seq<u8>) -> int {
    HEADER_SIZE + CELL_SIZE * spec_capacity(b)
}

/// Byte offset of the record stored in slot `i` of region `b`.
pub open spec fn spec_slot_offset(b: Seq<u8>, i: int) -> int {
    spec_data_offset(b) + i * spec_header_element_size(b)
}

/// The record bytes stored in slot `i` of region `b`.
pub open spec fn spec_slot_bytes(b: Seq<u8>, i: int) -> Seq<u8> {
    b.subrange(spec_slot_offset(b, i), spec_slot_offset(b, i) + spec_header_element_size(b))
}

/// The size and parameter conditions of a valid queue region: capacity a
/// power of two and at least 2, a positive element size, and a region long
/// enough for the layout.
pub open spec fn ring_layout_ok(b: Seq<u8>) -> bool {
    &&& is_power_of_two(spec_capacity(b))
    &&& 2 <= spec_capacity(b)
    &&& 1 <= spec_header_element_size(b)
    &&& spec_required_size(spec_header_element_size(b), spec_capacity(b)) <= b.len()
}

/// The structural invariant of an initialized, quiescent queue region.
///
/// Positions in `[dequeue_pos, enqueue_pos)` hold published records: their
/// slot's sequence word is the position plus one. Positions in
/// `[enqueue_pos, dequeue_pos + capacity)` are free for their generation:
/// their slot's sequence word equals the position.
pub open spec fn ring_invariant(b: Seq<u8>) -> bool {
    let e = spec_enqueue_pos(b);
    let d = spec_dequeue_pos(b);
    let cap = spec_capacity(b);
    &&& ring_layout_ok(b)
    &&& d <= e <= d + cap
    &&& forall|p: int| d <= p < e ==> #[trigger] spec_cell_sequence(b, p % cap) == p + 1
    &&& forall|p: int| e <= p < d + cap ==> #[trigger] spec_cell_sequence(b, p % cap) == p
}

/// The state of a region in which a producer has claimed position `pos` (the
/// enqueue cursor already points past it) but has not yet published the
/// record: the claimed slot's sequence word still equals `pos`.
pub open spec fn enqueue_claimed(b: Seq<u8>, pos: int) -> bool {
    let e = spec_enqueue_pos(b);
    let d = spec_dequeue_pos(b);
    let cap = spec_capacity(b);
    &&& ring_layout_ok(b)
    &&& d <= pos
    &&& e == pos + 1
    &&& e <= d + cap
    &&& forall|p: int| d <= p < pos ==> #[trigger] spec_cell_sequence(b, p % cap) == p + 1
    &&& spec_cell_sequence(b, pos % cap) == pos
    &&& forall|p: int| pos + 1 <= p < d + cap ==> #[trigger] spec_cell_sequence(b, p % cap) == p
}

/// The state of a region in which a consumer has claimed position `pos` (the
/// dequeue cursor already points past it) but has not yet freed the slot: the
/// claimed slot's sequence word still equals `pos + 1`.
pub open spec fn dequeue_claimed(b: Seq<u8>, pos: int) -> bool {
    let e = spec_enqueue_pos(b);
    let d = spec_dequeue_pos(b);
    let cap = spec_capacity(b);
    &&& ring_layout_ok(b)
    &&& d == pos + 1
    &&& pos < e
    &&& e <= pos + cap
    &&& forall|p: int| pos + 1 <= p < e ==> #[trigger] spec_cell_sequence(b, p % cap) == p + 1
    &&& spec_cell_sequence(b, pos % cap) == pos + 1
    &&& forall|p: int| e <= p < pos + cap ==> #[trigger] spec_cell_sequence(b, p % cap) == p
}

/// The records already published in a region where a producer holds an
/// unpublished claim on position `pos`: positions `[dequeue_pos, pos)`.
pub open spec fn enqueue_claimed_contents(b: Seq<u8>, pos: int) -> Seq<Seq<u8>> {
    Seq::new(
        (pos - spec_dequeue_pos(b)) as nat,
        |j: int| spec_slot_bytes(b, (spec_dequeue_pos(b) + j) % spec_capacity(b)),
    )
}

/// The records still pending in a region where a consumer holds an unfreed
/// claim on position `pos`: positions `[pos + 1, enqueue_pos)`.
pub open spec fn dequeue_claimed_contents(b: Seq<u8>, pos: int) -> Seq<Seq<u8>> {
    Seq::new(
        (spec_enqueue_pos(b) - pos - 1) as nat,
        |j: int| spec_slot_bytes(b, (pos + 1 + j) % spec_capacity(b)),
    )
}

/// The pending records of region `b`, oldest first.
pub open spec fn ring_contents(b: Seq<u8>) -> Seq<Seq<u8>> {
    Seq::new(
        (spec_enqueue_pos(b) - spec_dequeue_pos(b)) as nat,
        |j: int| spec_slot_bytes(b, (spec_dequeue_pos(b) + j) % spec_capacity(b)),
    )
}

/// Two positions of equal residue modulo `cap` lie at least `cap` apart.
proof fn lemma_same_residue_far_apart(p1: int, p2: int, cap: int)
    requires
        cap >= 1,
        p1 % cap == p2 % cap,
        p1 < p2,
    ensures
        p2 - p1 >= cap,
{
    lemma_fundamental_div_mod(p1, cap);
    lemma_fundamental_div_mod(p2, cap);
    let q1 = p1 / cap;
    let q2 = p2 / cap;
    assert(p2 - p1 == cap * (q2 - q1)) by {
        lemma_mul_is_distributive_sub(cap, q2, q1);
    }
    assert(q2 - q1 >= 1) by {
        if q2 <= q1 {
            lemma_mul_inequality(q2, q1, cap);
            lemma_mul_is_commutative(q2, cap);
            lemma_mul_is_commutative(q1, cap);
        }
    }
    lemma_mul_inequality(1, q2 - q1, cap);
}

/// Bounds that the ring invariant puts on the region and its parameters,
/// in the form the executable code needs for casts and offset arithmetic.
pub proof fn lemma_wf_region_bounds(b: Seq<u8>)
    requires
        ring_layout_ok(b),
    ensures
        HEADER_SIZE + CELL_SIZE * spec_capacity(b) + spec_capacity(b) * spec_header_element_size(
            b,
        ) <= b.len(),
        spec_header_element_size(b) <= spec_capacity(b) * spec_header_element_size(b),
        spec_capacity(b) <= CELL_SIZE * spec_capacity(b),
        0 <= spec_capacity(b) * spec_header_element_size(b),
        HEADER_SIZE <= b.len(),
{
    let esz = spec_header_element_size(b);
    let cap = spec_capacity(b);
    lemma_mul_nonnegative(cap, esz);
    lemma_mul_inequality(1, cap, esz);
    lemma_mul_inequality(1, CELL_SIZE as int, cap);
    assert(1 * esz == esz) by {
        lemma_mul_basics_int(esz);
    }
    assert(cap * esz == esz * cap) by {
        lemma_mul_is_commutative(cap, esz);
    }
    assert(esz * cap >= esz * 1) by {
        lemma_mul_left_inequality(esz, 1, cap);
    }
    assert(esz * 1 == esz) by {
        lemma_mul_basics_int(esz);
    }
}

/// `x * 1 == x` stated for direct use.
proof fn lemma_mul_basics_int(x: int)
    ensures
        x * 1 == x,
        1 * x == x,
{
}

/// Lock-free bounded queue living in an owned byte region.
///
/// The region is the single source of truth: capacity, element size, cursors
/// and slot states are all decoded from it, so a region handed from one party
/// to another carries the whole queue.
pub struct MpmcQueueOnBuffer {
    buf: Vec<u8>,
}

impl MpmcQueueOnBuffer {
    /// The raw bytes of the queue region.
    pub closed spec fn bytes(self) -> Seq<u8> {
        self.buf@
    }

    /// Bytes per record.
    pub open spec fn element_size(self) -> int {
        spec_header_element_size(self.bytes())
    }

    /// Number of slots.
    pub open spec fn capacity(self) -> int {
        spec_capacity(self.bytes())
    }

    /// Producer cursor.
    pub open spec fn enqueue_pos(self) -> int {
        spec_enqueue_pos(self.bytes())
    }

    /// Consumer cursor.
    pub open spec fn dequeue_pos(self) -> int {
        spec_dequeue_pos(self.bytes())
    }

    /// Structural invariant of the queue region.
    pub open spec fn wf(self) -> bool {
        ring_invariant(self.bytes())
    }

    /// Pending records, oldest first.
    pub open spec fn contents(self) -> Seq<Seq<u8>> {
        ring_contents(self.bytes())
    }

    /// Retrieves a snapshot of the queue header.
    pub fn header(&self) -> (h: MpmcQueueHeader)
        requires
            ring_layout_ok(self.bytes()),
        ensures
            h.element_size as int == self.element_size(),
            h.buffer_mask as int == self.capacity() - 1,
            h.enqueue_pos as int == self.enqueue_pos(),
            h.dequeue_pos as int == self.dequeue_pos(),
    {
        proof {
            lemma_wf_region_bounds(self.bytes());
        }
        let element_size = read_word(&self.buf, ELEMENT_SIZE_OFFSET);
        let buffer_mask = read_word(&self.buf, BUFFER_MASK_OFFSET);
        let enqueue_pos = read_word(&self.buf, ENQUEUE_POS_OFFSET);
        let dequeue_pos = read_word(&self.buf, DEQUEUE_POS_OFFSET);
        MpmcQueueHeader {
            element_size: element_size as usize,
            buffer_mask: buffer_mask as usize,
            enqueue_pos,
            dequeue_pos,
        }
    }

    /// Slot index of position `pos`: the position masked by `buffer_mask`.
    pub fn cell_index(&self, pos: u64) -> (r: usize)
        requires
            ring_layout_ok(self.bytes()),
        ensures
            r as int == pos as int % self.capacity(),
            r < self.capacity(),
    {
        proof {
            lemma_wf_region_bounds(self.bytes());
        }
        let mask = read_word(&self.buf, BUFFER_MASK_OFFSET);
        let idx64 = pos & mask;
        proof {
            let k = choose|k: nat| k < 64 && self.capacity() == pow2(k);
            lemma_u64_pow2_no_overflow(k);
            assert(mask as int == pow2(k) - 1);
            assert(mask == (pow2(k) - 1) as u64);
            lemma_mask_is_mod(pos, k);
            lemma_mod_bound(pos as int, self.capacity());
            assert(self.buf.len() == self.bytes().len());
            assert(idx64 < self.capacity());
        }
        idx64 as usize
    }

    /// Consumes the queue and hands back the raw region bytes, for transport
    /// into whatever medium carries the queue between parties.
    pub fn into_buffer(self) -> (r: Vec<u8>)
        ensures
            r@ == self.bytes(),
    {
        self.buf
    }
}

/// Checks that a region base address satisfies the word alignment the layout
/// asks for, as a joiner mapping the region at a raw address must.
pub fn check_base_alignment(base_addr: usize) -> (r: Result<(), MpmcQueueError>)
    ensures
        match r {
            Ok(()) => base_addr as int % (CELL_SIZE as int) == 0,
            Err(e) => {
                &&& base_addr as int % (CELL_SIZE as int) != 0
                &&& (e matches MpmcQueueError::BufferMisaligned { expected, actual } && expected
                    == CELL_SIZE && actual as int == base_addr as int % (CELL_SIZE as int))
            },
        },
{
    let rem = base_addr % CELL_SIZE;
    if rem != 0 {
        Err(MpmcQueueError::BufferMisaligned { expected: CELL_SIZE, actual: rem })
    } else {
        Ok(())
    }
}

/// Bounds of the sequence word of slot `i` inside the region.
proof fn lemma_cell_bounds(b: Seq<u8>, i: int)
    requires
        ring_layout_ok(b),
        0 <= i < spec_capacity(b),
    ensures
        HEADER_SIZE <= spec_cell_offset(i),
        spec_cell_offset(i) + CELL_SIZE <= spec_data_offset(b),
        spec_cell_offset(i) + CELL_SIZE <= b.len(),
{
    lemma_mul_nonnegative(spec_capacity(b), spec_header_element_size(b));
}

/// Bounds of the record bytes of slot `i` inside the region.
proof fn lemma_slot_bounds(b: Seq<u8>, i: int)
    requires
        ring_layout_ok(b),
        0 <= i < spec_capacity(b),
    ensures
        spec_data_offset(b) <= spec_slot_offset(b, i),
        spec_slot_offset(b, i) + spec_header_element_size(b) <= b.len(),
{
    let esz = spec_header_element_size(b);
    let cap = spec_capacity(b);
    lemma_mul_nonnegative(i, esz);
    lemma_mul_inequality(i + 1, cap, esz);
    lemma_mul_is_distributive_add_other_way(esz, i, 1);
    lemma_mul_basics_int(esz);
}

/// The record bytes of two distinct slots occupy disjoint byte ranges.
proof fn lemma_slot_ranges_disjoint(b: Seq<u8>, i: int, j: int)
    requires
        ring_layout_ok(b),
        0 <= i < spec_capacity(b),
        0 <= j < spec_capacity(b),
        i < j,
    ensures
        spec_slot_offset(b, i) + spec_header_element_size(b) <= spec_slot_offset(b, j),
{
    let esz = spec_header_element_size(b);
    lemma_mul_inequality(i + 1, j, esz);
    lemma_mul_is_distributive_add_other_way(esz, i, 1);
    lemma_mul_basics_int(esz);
}

/// An update that leaves the header words and all bytes of slot `i`'s record
/// untouched leaves that record's value unchanged.
proof fn lemma_slot_bytes_frame(b1: Seq<u8>, b2: Seq<u8>, lo: int, hi: int, i: int)
    requires
        eq_outside(b1, b2, lo, hi),
        spec_header_element_size(b1) == spec_header_element_size(b2),
        spec_capacity(b1) == spec_capacity(b2),
        ring_layout_ok(b2),
        0 <= i < spec_capacity(b2),
        hi <= spec_slot_offset(b2, i) || spec_slot_offset(b2, i) + spec_header_element_size(b2)
            <= lo,
    ensures
        spec_slot_bytes(b1, i) == spec_slot_bytes(b2, i),
{
    lemma_slot_bounds(b2, i);
    let off = spec_slot_offset(b2, i);
    let esz = spec_header_element_size(b2);
    assert forall|j: int| 0 <= j < esz implies #[trigger] b1[off + j] == b2[off + j] by {}
    assert(spec_slot_bytes(b1, i) =~= spec_slot_bytes(b2, i));
}

/// An update beyond the header leaves all four header words unchanged.
proof fn lemma_header_words_frame(b1: Seq<u8>, b2: Seq<u8>, lo: int, hi: int)
    requires
        eq_outside(b1, b2, lo, hi),
        HEADER_SIZE as int <= lo,
        HEADER_SIZE <= b1.len(),
    ensures
        spec_header_element_size(b1) == spec_header_element_size(b2),
        spec_header_mask(b1) == spec_header_mask(b2),
        spec_capacity(b1) == spec_capacity(b2),
        spec_enqueue_pos(b1) == spec_enqueue_pos(b2),
        spec_dequeue_pos(b1) == spec_dequeue_pos(b2),
{
    lemma_word_at_frame(b1, b2, lo, hi, ELEMENT_SIZE_OFFSET as int);
    lemma_word_at_frame(b1, b2, lo, hi, BUFFER_MASK_OFFSET as int);
    lemma_word_at_frame(b1, b2, lo, hi, ENQUEUE_POS_OFFSET as int);
    lemma_word_at_frame(b1, b2, lo, hi, DEQUEUE_POS_OFFSET as int);
}

/// Distinct positions inside one capacity-length window land in distinct
/// slots.
proof fn lemma_distinct_residues(p1: int, p2: int, lo: int, cap: int)
    requires
        cap >= 1,
        lo <= p1 < lo + cap,
        lo <= p2 < lo + cap,
        p1 != p2,
    ensures
        p1 % cap != p2 % cap,
{
    if p1 % cap == p2 % cap {
        if p1 < p2 {
            lemma_same_residue_far_apart(p1, p2, cap);
        } else {
            lemma_same_residue_far_apart(p2, p1, cap);
        }
    }
}

/// The value, as an unsigned 64-bit word, of the wrapped difference
/// `seq - pos` of two cursor words.
pub open spec fn cursor_delta(seq: int, pos: int) -> int {
    (seq - pos) % 0x1_0000_0000_0000_0000
}

/// The wrapped difference of two words, written without the wrap.
proof fn lemma_cursor_delta_value(seq: u64, pos: u64)
    ensures
        seq >= pos ==> cursor_delta(seq as int, pos as int) == seq - pos,
        seq < pos ==> cursor_delta(seq as int, pos as int) == seq - pos + 0x1_0000_0000_0000_0000,
{
    let m: int = 0x1_0000_0000_0000_0000;
    if seq >= pos {
        lemma_small_mod((seq - pos) as nat, m as nat);
    } else {
        lemma_mod_multiples_vanish(1, seq as int - pos as int, m);
        lemma_small_mod((seq - pos + m) as nat, m as nat);
        assert(m * 1 == m) by {
            lemma_mul_basics_int(m);
        }
    }
}

/// What a producer or consumer does after comparing a slot's sequence word
/// with the position it wants to claim.
#[derive(Debug, Clone, Copy, PartialEq, Eq, Structural)]
pub enum ClaimDecision {
    /// The slot is ready for this position: advance the cursor and claim it.
    Claim,
    /// The slot's current generation is behind the position: the ring is full
    /// (producer side) or empty (consumer side).
    Unavailable,
    /// Another party already moved this position on: reload the cursor and
    /// retry.
    Contended,
}

/// The decision a producer takes for a slot whose sequence word is `seq` when
/// trying to claim position `pos`: claim on a zero wrapped difference, report
/// a full ring on a negative one (a wrapped difference at or above 2^63),
/// retry on a positive one.
pub open spec fn spec_enqueue_claim(seq: int, pos: int) -> ClaimDecision {
    let delta = cursor_delta(seq, pos);
    if delta == 0 {
        ClaimDecision::Claim
    } else if delta >= 0x8000_0000_0000_0000 {
        ClaimDecision::Unavailable
    } else {
        ClaimDecision::Contended
    }
}

/// The decision a consumer takes for a slot whose sequence word is `seq` when
/// trying to claim position `pos`: the comparison is against `pos + 1`, the
/// sequence value a producer publishes there.
pub open spec fn spec_dequeue_claim(seq: int, pos: int) -> ClaimDecision {
    let delta = cursor_delta(seq, pos + 1);
    if delta == 0 {
        ClaimDecision::Claim
    } else if delta >= 0x8000_0000_0000_0000 {
        ClaimDecision::Unavailable
    } else {
        ClaimDecision::Contended
    }
}

/// Takes the producer's claim decision for position `pos` against the slot
/// sequence word `seq`.
pub fn enqueue_claim_decision(seq: u64, pos: u64) -> (r: ClaimDecision)
    ensures
        r == spec_enqueue_claim(seq as int, pos as int),
{
    proof {
        lemma_cursor_delta_value(seq, pos);
    }
    let delta: u64 = if seq >= pos {
        seq - pos
    } else {
        (u64::MAX - (pos - seq)) + 1
    };
    if delta == 0 {
        ClaimDecision::Claim
    } else if delta >= 0x8000_0000_0000_0000 {
        ClaimDecision::Unavailable
    } else {
        ClaimDecision::Contended
    }
}

/// Takes the consumer's claim decision for position `pos` against the slot
/// sequence word `seq`.
pub fn dequeue_claim_decision(seq: u64, pos: u64) -> (r: ClaimDecision)
    ensures
        r == spec_dequeue_claim(seq as int, pos as int),
{
    let delta: u64 = if seq > pos {
        seq - pos - 1
    } else {
        u64::MAX - (pos - seq)
    };
    proof {
        let m: int = 0x1_0000_0000_0000_0000;
        if seq > pos {
            lemma_small_mod((seq - pos - 1) as nat, m as nat);
        } else {
            lemma_mod_multiples_vanish(1, seq as int - pos as int - 1, m);
            lemma_small_mod((seq - pos - 1 + m) as nat, m as nat);
            assert(m * 1 == m) by {
                lemma_mul_basics_int(m);
            }
        }
        assert(delta as int == cursor_delta(seq as int, pos as int + 1));
    }
    if delta == 0 {
        ClaimDecision::Claim
    } else if delta >= 0x8000_0000_0000_0000 {
        ClaimDecision::Unavailable
    } else {
        ClaimDecision::Contended
    }
}

/// Writes the header words of a fresh queue: element size, mask, and both
/// cursors at zero.
fn init_header(buf: &mut Vec<u8>, element_size: usize, buffer_size: usize)
    requires
        HEADER_SIZE <= old(buf).len(),
        buffer_size >= 1,
    ensures
        final(buf)@.len() == old(buf)@.len(),
        spec_header_element_size(final(buf)@) == element_size as int,
        spec_header_mask(final(buf)@) == buffer_size - 1,
        spec_enqueue_pos(final(buf)@) == 0,
        spec_dequeue_pos(final(buf)@) == 0,
        eq_outside(final(buf)@, old(buf)@, 0, HEADER_SIZE as int),
{
    write_word(buf, ELEMENT_SIZE_OFFSET, element_size as u64);
    let ghost s1 = buf@;
    write_word(buf, BUFFER_MASK_OFFSET, (buffer_size - 1) as u64);
    let ghost s2 = buf@;
    write_word(buf, ENQUEUE_POS_OFFSET, 0);
    let ghost s3 = buf@;
    write_word(buf, DEQUEUE_POS_OFFSET, 0);
    proof {
        let s4 = buf@;
        lemma_word_at_frame(s2, s1, 8, 16, 0);
        lemma_word_at_frame(s3, s2, 16, 24, 0);
        lemma_word_at_frame(s4, s3, 24, 32, 0);
        lemma_word_at_frame(s3, s2, 16, 24, 8);
        lemma_word_at_frame(s4, s3, 24, 32, 8);
        lemma_word_at_frame(s4, s3, 24, 32, 16);
    }
}

/// Writes the sequence word of every slot of a fresh queue: slot `i` starts
/// at generation word `i`.
fn init_cells(buf: &mut Vec<u8>, buffer_size: usize)
    requires
        HEADER_SIZE + CELL_SIZE * buffer_size <= old(buf).len(),
    ensures
        final(buf)@.len() == old(buf)@.len(),
        forall|i: int|
            0 <= i < buffer_size ==> word_at(final(buf)@, spec_cell_offset(i)) == i,
        eq_outside(
            final(buf)@,
            old(buf)@,
            HEADER_SIZE as int,
            HEADER_SIZE + CELL_SIZE * buffer_size,
        ),
{
    let ghost orig = buf@;
    let mut i: usize = 0;
    while i < buffer_size
        invariant
            i <= buffer_size,
            HEADER_SIZE + CELL_SIZE * buffer_size <= buf.len(),
            buf@.len() == orig.len(),
            forall|j: int| 0 <= j < i ==> word_at(buf@, spec_cell_offset(j)) == j,
            eq_outside(buf@, orig, HEADER_SIZE as int, HEADER_SIZE + CELL_SIZE * buffer_size),
        decreases buffer_size - i,
    {
        let ghost prev = buf@;
        write_word(buf, HEADER_SIZE + i * CELL_SIZE, i as u64);
        proof {
            let cur = buf@;
            let off = spec_cell_offset(i as int);
            assert forall|j: int| 0 <= j < i implies word_at(cur, spec_cell_offset(j)) == j by {
                lemma_word_at_frame(cur, prev, off, off + 8, spec_cell_offset(j));
            }
        }
        i = i + 1;
    }
}

impl MpmcQueueOnBuffer {
    /// Reads the sequence word of slot `index`.
    fn cell_sequence(&self, index: usize) -> (r: u64)
        requires
            ring_layout_ok(self.bytes()),
            index < spec_capacity(self.bytes()),
        ensures
            r as int == spec_cell_sequence(self.bytes(), index as int),
    {
        proof {
            lemma_wf_region_bounds(self.bytes());
            lemma_cell_bounds(self.bytes(), index as int);
            assert(self.buf.len() == self.bytes().len());
        }
        read_word(&self.buf, HEADER_SIZE + index * CELL_SIZE)
    }

    /// Stores the sequence word of slot `index`, leaving the rest of the
    /// region unchanged.
    fn store_cell_sequence(&mut self, index: usize, value: u64)
        requires
            ring_layout_ok(old(self).bytes()),
            index < spec_capacity(old(self).bytes()),
        ensures
            final(self).bytes().len() == old(self).bytes().len(),
            spec_cell_sequence(final(self).bytes(), index as int) == value as int,
            eq_outside(
                final(self).bytes(),
                old(self).bytes(),
                spec_cell_offset(index as int),
                spec_cell_offset(index as int) + CELL_SIZE,
            ),
    {
        proof {
            lemma_wf_region_bounds(old(self).bytes());
            lemma_cell_bounds(old(self).bytes(), index as int);
            assert(self.buf.len() == self.bytes().len());
        }
        write_word(&mut self.buf, HEADER_SIZE + index * CELL_SIZE, value);
    }

    /// Byte offset of the data region.
    fn data_offset(&self) -> (r: usize)
        requires
            ring_layout_ok(self.bytes()),
        ensures
            r as int == spec_data_offset(self.bytes()),
    {
        proof {
            lemma_wf_region_bounds(self.bytes());
            assert(self.buf.len() == self.bytes().len());
            let k = choose|k: nat| k < 64 && spec_capacity(self.bytes()) == pow2(k);
            lemma_u64_pow2_no_overflow(k);
        }
        let mask = read_word(&self.buf, BUFFER_MASK_OFFSET);
        let cap = (mask + 1) as usize;
        HEADER_SIZE + cap * CELL_SIZE
    }

    /// Checks that an enqueue source holds exactly one record.
    pub fn validate_enqueue_src(&self, src: &[u8]) -> (r: Result<(), MpmcQueueError>)
        requires
            ring_layout_ok(self.bytes()),
        ensures
            match r {
                Ok(()) => src@.len() == self.element_size(),
                Err(e) => {
                    &&& src@.len() != self.element_size()
                    &&& e matches MpmcQueueError::InvalidSourceLength { expected, actual }
                        && expected as int == self.element_size() && actual == src@.len()
                },
            },
    {
        let header = self.header();
        if src.len() != header.element_size {
            Err(
                MpmcQueueError::InvalidSourceLength {
                    expected: header.element_size,
                    actual: src.len(),
                },
            )
        } else {
            Ok(())
        }
    }

    /// Checks that a dequeue destination has room for exactly one record.
    pub fn validate_dequeue_dst(&self, dst: &Vec<u8>) -> (r: Result<(), MpmcQueueError>)
        requires
            ring_layout_ok(self.bytes()),
        ensures
            match r {
                Ok(()) => dst@.len() == self.element_size(),
                Err(e) => {
                    &&& dst@.len() != self.element_size()
                    &&& e matches MpmcQueueError::InvalidDestinationLength { expected, actual }
                        && expected as int == self.element_size() && actual == dst@.len()
                },
            },
    {
        let header = self.header();
        if dst.len() != header.element_size {
            Err(
                MpmcQueueError::InvalidDestinationLength {
                    expected: header.element_size,
                    actual: dst.len(),
                },
            )
        } else {
            Ok(())
        }
    }

    /// Initializes a queue in the given region (creator), or attaches to the
    /// already-initialized queue the region holds (joiner, `new == false`).
    ///
    /// A joiner must hand in a region that a creator initialized, together
    /// with the element size and capacity its header declares; the facade
    /// establishes this by decoding and checking the region first.
    pub fn init_on_buffer(
        buffer: Vec<u8>,
        element_size: usize,
        buffer_size: usize,
        new: bool,
    ) -> (r: Result<MpmcQueueOnBuffer, MpmcQueueError>)
        requires
            !new ==> ring_invariant(buffer@) && spec_header_element_size(buffer@)
                == element_size as int && spec_capacity(buffer@) == buffer_size as int,
        ensures
            match r {
                Ok(q) => {
                    &&& spec_layout_error(buffer.len(), element_size, buffer_size) is None
                    &&& q.wf()
                    &&& q.bytes().len() == buffer@.len()
                    &&& q.element_size() == element_size as int
                    &&& q.capacity() == buffer_size as int
                    &&& (new ==> q.enqueue_pos() == 0 && q.dequeue_pos() == 0 && q.contents()
                        == Seq::<Seq<u8>>::empty())
                    &&& (!new ==> q.bytes() == buffer@)
                },
                Err(e) => Some(e) == spec_layout_error(buffer.len(), element_size, buffer_size),
            },
    {
        let mut buf = buffer;
        match validate_and_compute_layout(&buf, element_size, buffer_size) {
            Ok(_) => {},
            Err(e) => {
                return Err(e);
            },
        }
        if new {
            let ghost b0 = buf@;
            init_header(&mut buf, element_size, buffer_size);
            let ghost b1 = buf@;
            init_cells(&mut buf, buffer_size);
            proof {
                let b2 = buf@;
                lemma_header_words_frame(
                    b2,
                    b1,
                    HEADER_SIZE as int,
                    HEADER_SIZE + CELL_SIZE * buffer_size,
                );
                assert(spec_capacity(b2) == buffer_size as int);
                assert(spec_header_element_size(b2) == element_size as int);
                assert(spec_enqueue_pos(b2) == 0);
                assert(spec_dequeue_pos(b2) == 0);
                let cap = spec_capacity(b2);
                assert forall|p: int| 0 <= p < cap implies #[trigger] spec_cell_sequence(
                    b2,
                    p % cap,
                ) == p by {
                    lemma_small_mod(p as nat, cap as nat);
                }
                assert(ring_invariant(b2));
                assert(ring_contents(b2) =~= Seq::<Seq<u8>>::empty());
            }
        }
        Ok(MpmcQueueOnBuffer { buf })
    }
}

impl MpmcQueueOnBuffer {
    /// Attempts to claim the next enqueue position, advancing the producer
    /// cursor. Returns the claimed position, or `None` when every slot holds
    /// an unconsumed record. After a successful claim the caller must publish
    /// a record into the claimed slot.
    pub fn try_reserve_enqueue_slot(&mut self) -> (r: Option<u64>)
        requires
            old(self).wf(),
            old(self).enqueue_pos() + 1 <= u64::MAX,
        ensures
            final(self).element_size() == old(self).element_size(),
            final(self).capacity() == old(self).capacity(),
            final(self).dequeue_pos() == old(self).dequeue_pos(),
            final(self).bytes().len() == old(self).bytes().len(),
            match r {
                Some(pos) => {
                    &&& pos as int == old(self).enqueue_pos()
                    &&& old(self).contents().len() < old(self).capacity()
                    &&& enqueue_claimed(final(self).bytes(), pos as int)
                    &&& enqueue_claimed_contents(final(self).bytes(), pos as int) == old(
                        self,
                    ).contents()
                },
                None => {
                    &&& old(self).contents().len() == old(self).capacity()
                    &&& final(self).bytes() == old(self).bytes()
                },
            },
    {
        let ghost b0 = self.bytes();
        let ghost cap = spec_capacity(b0);
        let ghost d = spec_dequeue_pos(b0);
        let ghost e = spec_enqueue_pos(b0);
        proof {
            lemma_wf_region_bounds(b0);
            assert(self.buf.len() == b0.len());
        }
        let pos = read_word(&self.buf, ENQUEUE_POS_OFFSET);
        let index = self.cell_index(pos);
        let seq = self.cell_sequence(index);
        proof {
            lemma_mod_bound(e, cap);
            if e < d + cap {
                assert(spec_cell_sequence(b0, e % cap) == e);
            } else {
                assert(spec_cell_sequence(b0, d % cap) == d + 1);
                assert(e % cap == d % cap) by {
                    lemma_mod_multiples_vanish(1, d, cap);
                    assert(cap * 1 == cap) by {
                        lemma_mul_basics_int(cap);
                    }
                }
            }
            lemma_cursor_delta_value(seq, pos);
        }
        match enqueue_claim_decision(seq, pos) {
            ClaimDecision::Claim => {
                proof {
                    assert(seq == pos);
                    if e == d + cap {
                        assert(seq as int == e - cap + 1);
                        assert(false);
                    }
                    assert(e < d + cap);
                }
                write_word(&mut self.buf, ENQUEUE_POS_OFFSET, pos + 1);
                proof {
                    let b1 = self.bytes();
                    lemma_word_at_frame(b1, b0, 16, 24, 0);
                    lemma_word_at_frame(b1, b0, 16, 24, 8);
                    lemma_word_at_frame(b1, b0, 16, 24, 24);
                    assert forall|i: int| 0 <= i < cap implies #[trigger] spec_cell_sequence(
                        b1,
                        i,
                    ) == spec_cell_sequence(b0, i) by {
                        lemma_cell_bounds(b0, i);
                        lemma_word_at_frame(b1, b0, 16, 24, spec_cell_offset(i));
                    }
                    assert forall|p: int| d <= p < pos as int implies #[trigger] spec_cell_sequence(
                        b1,
                        p % cap,
                    ) == p + 1 by {
                        lemma_mod_bound(p, cap);
                    }
                    assert forall|p: int|
                        pos as int + 1 <= p < d + cap implies #[trigger] spec_cell_sequence(
                        b1,
                        p % cap,
                    ) == p by {
                        lemma_mod_bound(p, cap);
                    }
                    assert(spec_cell_sequence(b1, pos as int % cap) == pos);
                    assert(enqueue_claimed(b1, pos as int));
                    assert(enqueue_claimed_contents(b1, pos as int) =~= ring_contents(b0)) by {
                        assert forall|j: int|
                            0 <= j < pos as int - d implies enqueue_claimed_contents(
                            b1,
                            pos as int,
                        )[j] == ring_contents(b0)[j] by {
                            lemma_mod_bound(d + j, cap);
                            lemma_slot_bounds(b0, (d + j) % cap);
                            lemma_slot_bytes_frame(b1, b0, 16, 24, (d + j) % cap);
                        }
                    }
                }
                Some(pos)
            },
            ClaimDecision::Unavailable => {
                proof {
                    if e < d + cap {
                        assert(seq == pos);
                        assert(false);
                    }
                    assert(e == d + cap);
                }
                None
            },
            ClaimDecision::Contended => {
                proof {
                    if e < d + cap {
                        assert(seq == pos);
                        assert(false);
                    } else {
                        assert(seq as int == e - cap + 1);
                        let k = choose|k: nat| k < 64 && cap == pow2(k);
                        if k < 63 {
                            lemma_pow2_strictly_increases(k, 63);
                        }
                        lemma2_to64_rest();
                        assert(cap <= 0x8000_0000_0000_0000);
                        assert(false);
                    }
                }
                None
            },
        }
    }

    /// Writes one record into the slot claimed at position `pos` and
    /// publishes it by advancing the slot's sequence word to `pos + 1`.
    fn write_slot(&mut self, pos: u64, src: &[u8])
        requires
            enqueue_claimed(old(self).bytes(), pos as int),
            src@.len() == old(self).element_size(),
            pos < u64::MAX,
        ensures
            final(self).wf(),
            final(self).element_size() == old(self).element_size(),
            final(self).capacity() == old(self).capacity(),
            final(self).enqueue_pos() == old(self).enqueue_pos(),
            final(self).dequeue_pos() == old(self).dequeue_pos(),
            final(self).bytes().len() == old(self).bytes().len(),
            final(self).contents() == enqueue_claimed_contents(old(self).bytes(), pos as int).push(
                src@,
            ),
    {
        let ghost b0 = self.bytes();
        let ghost cap = spec_capacity(b0);
        let ghost d = spec_dequeue_pos(b0);
        let ghost esz = spec_header_element_size(b0);
        proof {
            lemma_wf_region_bounds(b0);
            assert(self.buf.len() == b0.len());
            lemma_mod_bound(pos as int, cap);
        }
        let header = self.header();
        let index = self.cell_index(pos);
        let data_off = self.data_offset();
        proof {
            lemma_slot_bounds(b0, index as int);
        }
        let slot_off = data_off + index * header.element_size;
        write_bytes(&mut self.buf, slot_off, src);
        let ghost b1 = self.bytes();
        proof {
            lemma_header_words_frame(b1, b0, slot_off as int, slot_off + src@.len());
            assert forall|i: int| 0 <= i < cap implies #[trigger] spec_cell_sequence(b1, i)
                == spec_cell_sequence(b0, i) by {
                lemma_cell_bounds(b0, i);
                lemma_word_at_frame(b1, b0, slot_off as int, slot_off + src@.len(), spec_cell_offset(i));
            }
            assert forall|i: int|
                0 <= i < cap && i != index as int implies #[trigger] spec_slot_bytes(b1, i)
                == spec_slot_bytes(b0, i) by {
                lemma_slot_bounds(b0, i);
                if i < index as int {
                    lemma_slot_ranges_disjoint(b0, i, index as int);
                } else {
                    lemma_slot_ranges_disjoint(b0, index as int, i);
                }
                lemma_slot_bytes_frame(b1, b0, slot_off as int, slot_off + src@.len(), i);
            }
            assert(spec_slot_offset(b1, index as int) == slot_off as int);
            assert(spec_slot_bytes(b1, index as int) == src@) by {
                assert(spec_slot_bytes(b1, index as int) =~= src@);
            }
        }
        self.store_cell_sequence(index, pos + 1);
        proof {
            let b2 = self.bytes();
            let cell_lo = spec_cell_offset(index as int);
            lemma_cell_bounds(b1, index as int);
            lemma_header_words_frame(b2, b1, cell_lo, cell_lo + CELL_SIZE as int);
            assert forall|i: int|
                0 <= i < cap && i != index as int implies #[trigger] spec_cell_sequence(b2, i)
                == spec_cell_sequence(b1, i) by {
                lemma_cell_bounds(b1, i);
                lemma_word_at_frame(b2, b1, cell_lo, cell_lo + CELL_SIZE as int, spec_cell_offset(i));
            }
            assert forall|i: int| 0 <= i < cap implies #[trigger] spec_slot_bytes(b2, i)
                == spec_slot_bytes(b1, i) by {
                lemma_slot_bounds(b1, i);
                lemma_slot_bytes_frame(b2, b1, cell_lo, cell_lo + CELL_SIZE as int, i);
            }
            assert(spec_enqueue_pos(b2) == pos as int + 1);
            assert(spec_dequeue_pos(b2) == d);
            assert(spec_capacity(b2) == cap);
            assert forall|p: int|
                d <= p < pos as int + 1 implies #[trigger] spec_cell_sequence(b2, p % cap) == p
                + 1 by {
                lemma_mod_bound(p, cap);
                if p < pos as int {
                    lemma_distinct_residues(p, pos as int, d, cap);
                }
            }
            assert forall|p: int|
                pos as int + 1 <= p < d + cap implies #[trigger] spec_cell_sequence(b2, p % cap)
                == p by {
                lemma_mod_bound(p, cap);
                lemma_distinct_residues(p, pos as int, d, cap);
            }
            assert(ring_invariant(b2));
            assert(ring_contents(b2) =~= enqueue_claimed_contents(b0, pos as int).push(src@)) by {
                assert forall|j: int|
                    0 <= j < pos as int + 1 - d implies ring_contents(b2)[j]
                    == enqueue_claimed_contents(b0, pos as int).push(src@)[j] by {
                    lemma_mod_bound(d + j, cap);
                    if j < pos as int - d {
                        lemma_distinct_residues(d + j, pos as int, d, cap);
                    } else {
                        assert(d + j == pos as int);
                    }
                }
            }
        }
    }

    /// Attempts to enqueue one record into the queue.
    ///
    /// Succeeds exactly when the source holds `element_size` bytes and fewer
    /// than `capacity` records are pending; the record is then appended to
    /// the pending sequence. Otherwise the queue is unchanged and the error
    /// says why: a source of the wrong length, or a full ring.
    ///
    /// The precondition keeps the 64-bit producer cursor short of wrap; it
    /// advances by one per successful enqueue, so this is a machine limit of
    /// the cursor word, not a behavioral bound.
    pub fn enqueue(&mut self, src: &[u8]) -> (r: Result<(), MpmcQueueError>)
        requires
            old(self).wf(),
            old(self).enqueue_pos() + 1 <= u64::MAX,
        ensures
            final(self).wf(),
            final(self).element_size() == old(self).element_size(),
            final(self).capacity() == old(self).capacity(),
            match r {
                Ok(()) => {
                    &&& src@.len() == old(self).element_size()
                    &&& old(self).contents().len() < old(self).capacity()
                    &&& final(self).contents() == old(self).contents().push(src@)
                    &&& final(self).enqueue_pos() == old(self).enqueue_pos() + 1
                    &&& final(self).dequeue_pos() == old(self).dequeue_pos()
                },
                Err(e) => {
                    &&& final(self).bytes() == old(self).bytes()
                    &&& (e matches MpmcQueueError::InvalidSourceLength { expected, actual } ==> (
                        src@.len() != old(self).element_size() && expected as int == old(
                        self,
                    ).element_size() && actual == src@.len()))
                    &&& (e == MpmcQueueError::QueueFull ==> (src@.len() == old(
                        self,
                    ).element_size() && old(self).contents().len() == old(self).capacity()))
                    &&& ((e matches MpmcQueueError::InvalidSourceLength { .. }) || e
                        == MpmcQueueError::QueueFull)
                },
            },
    {
        match self.validate_enqueue_src(src) {
            Err(e) => {
                return Err(e);
            },
            Ok(()) => {},
        }
        match self.try_reserve_enqueue_slot() {
            Some(pos) => {
                self.write_slot(pos, src);
                Ok(())
            },
            None => Err(MpmcQueueError::QueueFull),
        }
    }
}

impl MpmcQueueOnBuffer {
    /// Attempts to claim the next dequeue position, advancing the consumer
    /// cursor. Returns the claimed position, or `None` when no slot holds an
    /// unconsumed record. After a successful claim the caller must copy the
    /// record out and free the slot.
    pub fn try_reserve_dequeue_slot(&mut self) -> (r: Option<u64>)
        requires
            old(self).wf(),
            old(self).dequeue_pos() + old(self).capacity() <= u64::MAX,
        ensures
            final(self).element_size() == old(self).element_size(),
            final(self).capacity() == old(self).capacity(),
            final(self).enqueue_pos() == old(self).enqueue_pos(),
            final(self).bytes().len() == old(self).bytes().len(),
            match r {
                Some(pos) => {
                    &&& pos as int == old(self).dequeue_pos()
                    &&& old(self).contents().len() > 0
                    &&& dequeue_claimed(final(self).bytes(), pos as int)
                    &&& spec_slot_bytes(final(self).bytes(), pos as int % old(self).capacity())
                        == old(self).contents()[0]
                    &&& dequeue_claimed_contents(final(self).bytes(), pos as int) == old(
                        self,
                    ).contents().subrange(1, old(self).contents().len() as int)
                },
                None => {
                    &&& old(self).contents().len() == 0
                    &&& final(self).bytes() == old(self).bytes()
                },
            },
    {
        let ghost b0 = self.bytes();
        let ghost cap = spec_capacity(b0);
        let ghost d = spec_dequeue_pos(b0);
        let ghost e = spec_enqueue_pos(b0);
        proof {
            lemma_wf_region_bounds(b0);
            assert(self.buf.len() == b0.len());
        }
        let pos = read_word(&self.buf, DEQUEUE_POS_OFFSET);
        let index = self.cell_index(pos);
        let seq = self.cell_sequence(index);
        proof {
            lemma_mod_bound(d, cap);
            if d < e {
                assert(spec_cell_sequence(b0, d % cap) == d + 1);
            } else {
                assert(d == e);
                assert(spec_cell_sequence(b0, d % cap) == d);
            }
            lemma_cursor_delta_value(seq, (pos + 1) as u64);
        }
        match dequeue_claim_decision(seq, pos) {
            ClaimDecision::Claim => {
                proof {
                    assert(seq as int == pos as int + 1);
                    assert(d < e);
                }
                write_word(&mut self.buf, DEQUEUE_POS_OFFSET, pos + 1);
                proof {
                    let b1 = self.bytes();
                    lemma_word_at_frame(b1, b0, 24, 32, 0);
                    lemma_word_at_frame(b1, b0, 24, 32, 8);
                    lemma_word_at_frame(b1, b0, 24, 32, 16);
                    assert forall|i: int| 0 <= i < cap implies #[trigger] spec_cell_sequence(
                        b1,
                        i,
                    ) == spec_cell_sequence(b0, i) by {
                        lemma_cell_bounds(b0, i);
                        lemma_word_at_frame(b1, b0, 24, 32, spec_cell_offset(i));
                    }
                    assert forall|p: int|
                        pos as int + 1 <= p < e implies #[trigger] spec_cell_sequence(b1, p % cap)
                        == p + 1 by {
                        lemma_mod_bound(p, cap);
                    }
                    assert forall|p: int|
                        e <= p < pos as int + cap implies #[trigger] spec_cell_sequence(b1, p % cap)
                        == p by {
                        lemma_mod_bound(p, cap);
                    }
                    assert(spec_cell_sequence(b1, pos as int % cap) == pos as int + 1);
                    assert(dequeue_claimed(b1, pos as int));
                    assert forall|i: int| 0 <= i < cap implies #[trigger] spec_slot_bytes(b1, i)
                        == spec_slot_bytes(b0, i) by {
                        lemma_slot_bounds(b0, i);
                        lemma_slot_bytes_frame(b1, b0, 24, 32, i);
                    }
                    assert(spec_slot_bytes(b1, pos as int % cap) == old(self).contents()[0]);
                    assert(dequeue_claimed_contents(b1, pos as int) =~= ring_contents(
                        b0,
                    ).subrange(1, ring_contents(b0).len() as int)) by {
                        assert forall|j: int|
                            0 <= j < e - pos as int - 1 implies dequeue_claimed_contents(
                            b1,
                            pos as int,
                        )[j] == ring_contents(b0).subrange(1, ring_contents(b0).len() as int)[j] by {
                            lemma_mod_bound(pos as int + 1 + j, cap);
                            assert(ring_contents(b0).subrange(
                                1,
                                ring_contents(b0).len() as int,
                            )[j] == ring_contents(b0)[j + 1]);
                        }
                    }
                }
                Some(pos)
            },
            ClaimDecision::Unavailable => {
                proof {
                    if d < e {
                        assert(seq as int == pos as int + 1);
                        assert(false);
                    }
                    assert(d == e);
                }
                None
            },
            ClaimDecision::Contended => {
                proof {
                    if d < e {
                        assert(seq as int == pos as int + 1);
                        assert(false);
                    } else {
                        assert(seq == pos);
                        assert(cursor_delta(seq as int, pos as int + 1)
                            == 0x1_0000_0000_0000_0000 - 1);
                        assert(false);
                    }
                }
                None
            },
        }
    }

    /// Copies the record out of the slot claimed at position `pos` into
    /// `dst`, then frees the slot for the next generation by advancing its
    /// sequence word to `pos + buffer_mask + 1`.
    fn read_slot(&mut self, pos: u64, dst: &mut Vec<u8>)
        requires
            dequeue_claimed(old(self).bytes(), pos as int),
            pos as int + spec_capacity(old(self).bytes()) <= u64::MAX,
        ensures
            final(self).wf(),
            final(self).element_size() == old(self).element_size(),
            final(self).capacity() == old(self).capacity(),
            final(self).enqueue_pos() == old(self).enqueue_pos(),
            final(self).dequeue_pos() == old(self).dequeue_pos(),
            final(self).bytes().len() == old(self).bytes().len(),
            final(dst)@ == spec_slot_bytes(
                old(self).bytes(),
                pos as int % spec_capacity(old(self).bytes()),
            ),
            final(self).contents() == dequeue_claimed_contents(old(self).bytes(), pos as int),
    {
        let ghost b0 = self.bytes();
        let ghost cap = spec_capacity(b0);
        let ghost e = spec_enqueue_pos(b0);
        proof {
            lemma_wf_region_bounds(b0);
            assert(self.buf.len() == b0.len());
            lemma_mod_bound(pos as int, cap);
        }
        let header = self.header();
        let index = self.cell_index(pos);
        let data_off = self.data_offset();
        proof {
            lemma_slot_bounds(b0, index as int);
        }
        let slot_off = data_off + index * header.element_size;
        let record = read_bytes(&self.buf, slot_off, header.element_size);
        proof {
            assert(record@ == spec_slot_bytes(b0, index as int));
        }
        *dst = record;
        self.store_cell_sequence(index, pos + (header.buffer_mask as u64) + 1);
        proof {
            let b1 = self.bytes();
            let cell_lo = spec_cell_offset(index as int);
            lemma_cell_bounds(b0, index as int);
            lemma_header_words_frame(b1, b0, cell_lo, cell_lo + CELL_SIZE as int);
            assert forall|i: int|
                0 <= i < cap && i != index as int implies #[trigger] spec_cell_sequence(b1, i)
                == spec_cell_sequence(b0, i) by {
                lemma_cell_bounds(b0, i);
                lemma_word_at_frame(b1, b0, cell_lo, cell_lo + CELL_SIZE as int, spec_cell_offset(i));
            }
            assert forall|i: int| 0 <= i < cap implies #[trigger] spec_slot_bytes(b1, i)
                == spec_slot_bytes(b0, i) by {
                lemma_slot_bounds(b0, i);
                lemma_slot_bytes_frame(b1, b0, cell_lo, cell_lo + CELL_SIZE as int, i);
            }
            assert(spec_cell_sequence(b1, index as int) == pos as int + cap);
            assert((pos as int + cap) % cap == pos as int % cap) by {
                lemma_mod_multiples_vanish(1, pos as int, cap);
                assert(cap * 1 == cap) by {
                    lemma_mul_basics_int(cap);
                }
            }
            assert forall|p: int|
                pos as int + 1 <= p < e implies #[trigger] spec_cell_sequence(b1, p % cap) == p
                + 1 by {
                lemma_mod_bound(p, cap);
                lemma_distinct_residues(p, pos as int, pos as int, cap);
            }
            assert forall|p: int|
                e <= p < pos as int + 1 + cap implies #[trigger] spec_cell_sequence(b1, p % cap)
                == p by {
                lemma_mod_bound(p, cap);
                if p < pos as int + cap {
                    lemma_distinct_residues(p, pos as int, pos as int, cap);
                } else {
                    assert(p == pos as int + cap);
                }
            }
            assert(ring_invariant(b1));
            assert(ring_contents(b1) =~= dequeue_claimed_contents(b0, pos as int)) by {
                assert forall|j: int|
                    0 <= j < e - pos as int - 1 implies ring_contents(b1)[j]
                    == dequeue_claimed_contents(b0, pos as int)[j] by {
                    lemma_mod_bound(pos as int + 1 + j, cap);
                }
            }
        }
    }

    /// Attempts to dequeue one record from the queue into `dst`.
    ///
    /// Succeeds exactly when `dst` holds `element_size` bytes and at least
    /// one record is pending; `dst` then receives the oldest record, which
    /// is removed from the pending sequence. Otherwise queue and `dst` are
    /// unchanged and the error says why: a destination of the wrong length,
    /// or an empty ring.
    ///
    /// The precondition keeps the freed slot's next sequence word, the
    /// consumer cursor plus the capacity, inside its 64-bit range; the
    /// cursor advances by one per successful dequeue, so this is a machine
    /// limit of the cursor word, not a behavioral bound.
    pub fn dequeue(&mut self, dst: &mut Vec<u8>) -> (r: Result<(), MpmcQueueError>)
        requires
            old(self).wf(),
            old(self).dequeue_pos() + old(self).capacity() <= u64::MAX,
        ensures
            final(self).wf(),
            final(self).element_size() == old(self).element_size(),
            final(self).capacity() == old(self).capacity(),
            match r {
                Ok(()) => {
                    &&& old(dst)@.len() == old(self).element_size()
                    &&& old(self).contents().len() > 0
                    &&& final(dst)@ == old(self).contents()[0]
                    &&& final(self).contents() == old(self).contents().subrange(
                        1,
                        old(self).contents().len() as int,
                    )
                    &&& final(self).dequeue_pos() == old(self).dequeue_pos() + 1
                    &&& final(self).enqueue_pos() == old(self).enqueue_pos()
                },
                Err(e) => {
                    &&& final(self).bytes() == old(self).bytes()
                    &&& final(dst)@ == old(dst)@
                    &&& (e matches MpmcQueueError::InvalidDestinationLength { expected, actual }
                        ==> (old(dst)@.len() != old(self).element_size() && expected as int == old(
                        self,
                    ).element_size() && actual == old(dst)@.len()))
                    &&& (e == MpmcQueueError::QueueEmpty ==> (old(dst)@.len() == old(
                        self,
                    ).element_size() && old(self).contents().len() == 0))
                    &&& ((e matches MpmcQueueError::InvalidDestinationLength { .. }) || e
                        == MpmcQueueError::QueueEmpty)
                },
            },
    {
        match self.validate_dequeue_dst(dst) {
            Err(e) => {
                return Err(e);
            },
            Ok(()) => {},
        }
        match self.try_reserve_dequeue_slot() {
            Some(pos) => {
                self.read_slot(pos, dst);
                Ok(())
            },
            None => Err(MpmcQueueError::QueueEmpty),
        }
    }
}

/// The sequence word a coherent quiescent region holds in slot `i`: the one
/// position `p` of this generation's window `[dequeue_pos, dequeue_pos +
/// capacity)` that lands in slot `i`, plus one if `p` is published.
pub open spec fn spec_expected_cell(b: Seq<u8>, i: int) -> int {
    let d = spec_dequeue_pos(b);
    let e = spec_enqueue_pos(b);
    let cap = spec_capacity(b);
    let p = d + (if i >= d % cap {
        i - d % cap
    } else {
        i + cap - d % cap
    });
    if p < e {
        p + 1
    } else {
        p
    }
}

/// The one position of the window `[d, d + cap)` that lands in slot `i`, and
/// its closed form.
proof fn lemma_window_position(d: int, cap: int, i: int) -> (p: int)
    requires
        cap >= 1,
        0 <= d,
        0 <= i < cap,
    ensures
        d <= p < d + cap,
        p % cap == i,
        p == d + (if i >= d % cap {
            i - d % cap
        } else {
            i + cap - d % cap
        }),
{
    lemma_mod_bound(d, cap);
    lemma_fundamental_div_mod(d, cap);
    let q = d / cap;
    let dm = d % cap;
    if i >= dm {
        let p = d + i - dm;
        assert(p == q * cap + i) by {
            lemma_mul_is_commutative(cap, q);
        }
        lemma_fundamental_div_mod_converse_mod(p, cap, q, i);
        p
    } else {
        let p = d + i + cap - dm;
        assert(p == (q + 1) * cap + i) by {
            lemma_mul_is_commutative(cap, q);
            lemma_mul_is_distributive_add_other_way(cap, q, 1);
            lemma_mul_basics_int(cap);
        }
        lemma_fundamental_div_mod_converse_mod(p, cap, q + 1, i);
        p
    }
}

/// A region whose cursors are in range and whose every slot holds exactly
/// the expected sequence word satisfies the ring invariant.
proof fn lemma_cell_check_sound(b: Seq<u8>)
    requires
        ring_layout_ok(b),
        spec_dequeue_pos(b) <= spec_enqueue_pos(b),
        spec_enqueue_pos(b) - spec_dequeue_pos(b) <= spec_capacity(b),
        spec_dequeue_pos(b) + spec_capacity(b) <= u64::MAX,
        forall|i: int|
            0 <= i < spec_capacity(b) ==> #[trigger] spec_cell_sequence(b, i)
                == spec_expected_cell(b, i),
    ensures
        ring_invariant(b),
{
    let d = spec_dequeue_pos(b);
    let e = spec_enqueue_pos(b);
    let cap = spec_capacity(b);
    assert forall|p: int| d <= p < e implies #[trigger] spec_cell_sequence(b, p % cap) == p
        + 1 by {
        lemma_mod_bound(p, cap);
        let p2 = lemma_window_position(d, cap, p % cap);
        assert(p2 == p) by {
            if p2 != p {
                lemma_distinct_residues(p, p2, d, cap);
            }
        }
    }
    assert forall|p: int| e <= p < d + cap implies #[trigger] spec_cell_sequence(b, p % cap)
        == p by {
        lemma_mod_bound(p, cap);
        let p2 = lemma_window_position(d, cap, p % cap);
        assert(p2 == p) by {
            if p2 != p {
                lemma_distinct_residues(p, p2, d, cap);
            }
        }
    }
}

/// In a region satisfying the ring invariant, every slot holds exactly the
/// expected sequence word.
proof fn lemma_cell_check_complete(b: Seq<u8>, i: int)
    requires
        ring_invariant(b),
        0 <= i < spec_capacity(b),
    ensures
        spec_cell_sequence(b, i) == spec_expected_cell(b, i),
{
    let d = spec_dequeue_pos(b);
    let cap = spec_capacity(b);
    let p = lemma_window_position(d, cap, i);
}

/// Checks that a region whose layout already validated holds a coherent
/// quiescent queue state: cursors in range, with room to advance inside a
/// 64-bit word, and every slot's sequence word matching its generation.
pub fn check_ring_state(buffer: &Vec<u8>) -> (r: bool)
    requires
        ring_layout_ok(buffer@),
    ensures
        r == (ring_invariant(buffer@) && spec_dequeue_pos(buffer@) + spec_capacity(buffer@)
            <= u64::MAX),
{
    let ghost b = buffer@;
    proof {
        lemma_wf_region_bounds(b);
        let k = choose|k: nat| k < 64 && spec_capacity(b) == pow2(k);
        lemma_u64_pow2_no_overflow(k);
    }
    let esz = read_word(buffer, ELEMENT_SIZE_OFFSET);
    let mask = read_word(buffer, BUFFER_MASK_OFFSET);
    let e = read_word(buffer, ENQUEUE_POS_OFFSET);
    let d = read_word(buffer, DEQUEUE_POS_OFFSET);
    let cap64 = mask + 1;
    if d > e {
        return false;
    }
    if e - d > cap64 {
        return false;
    }
    if cap64 > u64::MAX - d {
        return false;
    }
    proof {
        let k = choose|k: nat| k < 64 && spec_capacity(b) == pow2(k);
        if k < 63 {
            lemma_pow2_strictly_increases(k, 63);
        }
        lemma2_to64_rest();
        assert(cap64 <= 0x8000_0000_0000_0000u64);
        assert(buffer@.len() == buffer.len());
        assert(cap64 as int <= CELL_SIZE * spec_capacity(b));
    }
    let cap = cap64 as usize;
    let dm = d % cap64;
    let ghost gcap = spec_capacity(b);
    let mut i: usize = 0;
    while i < cap
        invariant
            ring_layout_ok(b),
            buffer@ == b,
            gcap == spec_capacity(b),
            i <= cap,
            cap as int == gcap,
            cap64 as int == gcap,
            esz as int == spec_header_element_size(b),
            e as int == spec_enqueue_pos(b),
            d as int == spec_dequeue_pos(b),
            d <= e,
            e - d <= cap64,
            cap64 <= u64::MAX - d,
            dm as int == spec_dequeue_pos(b) % gcap,
            cap64 <= 0x8000_0000_0000_0000u64,
            buffer.len() == b.len(),
            forall|j: int|
                0 <= j < i ==> #[trigger] spec_cell_sequence(b, j) == spec_expected_cell(b, j),
        decreases cap - i,
    {
        proof {
            lemma_wf_region_bounds(b);
            lemma_cell_bounds(b, i as int);
            lemma_mod_bound(d as int, gcap);
        }
        let i64 = i as u64;
        let off = if i64 >= dm {
            i64 - dm
        } else {
            i64 + cap64 - dm
        };
        let p = d + off;
        let expected = if p < e {
            p + 1
        } else {
            p
        };
        let actual = read_word(buffer, HEADER_SIZE + i * CELL_SIZE);
        if actual != expected {
            proof {
                if ring_invariant(b) {
                    lemma_cell_check_complete(b, i as int);
                }
            }
            return false;
        }
        i = i + 1;
    }
    proof {
        lemma_cell_check_sound(b);
    }
    true
}

impl MpmcQueueOnBuffer {
    /// Every pending record counts toward the capacity bound and holds
    /// exactly `element_size` bytes.
    pub proof fn lemma_contents_wf(self)
        requires
            self.wf(),
        ensures
            0 <= self.contents().len() <= self.capacity(),
            forall|j: int|
                0 <= j < self.contents().len() ==> #[trigger] self.contents()[j].len()
                    == self.element_size(),
    {
        let b = self.bytes();
        let d = spec_dequeue_pos(b);
        let cap = spec_capacity(b);
        lemma_wf_region_bounds(b);
        assert forall|j: int|
            0 <= j < self.contents().len() implies #[trigger] self.contents()[j].len()
            == self.element_size() by {
            lemma_mod_bound(d + j, cap);
            lemma_slot_bounds(b, (d + j) % cap);
        }
    }

    /// Bounds the ring invariant puts on a queue's parameters, stated for
    /// callers outside this module.
    pub proof fn lemma_bounds(self)
        requires
            ring_layout_ok(self.bytes()),
        ensures
            2 <= self.capacity(),
            1 <= self.element_size(),
            self.capacity() <= self.bytes().len() <= usize::MAX,
            self.element_size() <= self.bytes().len(),
            spec_required_size(self.element_size(), self.capacity()) <= self.bytes().len(),
    {
        lemma_wf_region_bounds(self.bytes());
        assert(self.buf.len() == self.bytes().len());
    }
}

} // verus!
