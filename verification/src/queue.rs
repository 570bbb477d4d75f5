//! Queue facade: construction, lifecycle and the close protocol on top of
//! the ring core.
//!
//! A creator computes the required region size from `(element_size,
//! capacity)`, allocates the region and initializes the ring in it. A joiner
//! hands in the bytes of an already-initialized region; the facade decodes
//! the header, validates the layout against the region's length and checks
//! that the region holds a coherent queue state before trusting it. Blocking
//! `put` / `get` wrappers poll the non-blocking core with a short sleep
//! between attempts; the give-up decision for such a wrapper lives here as
//! [`wait_should_give_up`], while the clock and the sleep stay with the
//! caller that runs the loop.

use crate::bytes::zero_vec;
use crate::mpmc_queue::{
    check_ring_state, compute_required_size, find_pow2_exponent, is_power_of_two, ring_contents,
    ring_invariant, spec_capacity, spec_dequeue_pos, spec_header_element_size, spec_layout_error,
    spec_required_size, MpmcQueueError, MpmcQueueOnBuffer, CELL_SIZE, ELEMENT_SIZE_OFFSET,
    HEADER_SIZE,
};
use vstd::prelude::*;

verus! {

/// Errors reported by the queue facade.
#[derive(Debug, Clone, Copy, PartialEq, Eq, Structural)]
pub enum QueueError {
    /// The queue was used after `close`.
    QueueClosed,
    /// A required construction parameter is missing, the requested layout
    /// cannot fit in memory, or an attached region does not hold a coherent
    /// queue state.
    InvalidParameters,
    /// An error reported by the ring core.
    Queue(MpmcQueueError),
}

/// The error, if any, that creating a queue with the given parameters
/// reports. `None` means creation succeeds.
pub open spec fn spec_create_error(element_size: usize, capacity: usize) -> Option<QueueError> {
    if capacity < 2 {
        Some(QueueError::Queue(MpmcQueueError::BufferTooSmall { required: 2, provided: capacity }))
    } else if !is_power_of_two(capacity as int) {
        Some(QueueError::Queue(MpmcQueueError::BufferSizeNotPowerOfTwo { actual: capacity }))
    } else if element_size == 0 {
        Some(QueueError::Queue(MpmcQueueError::BufferTooSmall { required: 1, provided: 0 }))
    } else if spec_required_size(element_size as int, capacity as int) > usize::MAX {
        Some(QueueError::InvalidParameters)
    } else {
        None
    }
}

/// The error, if any, that attaching to the given region bytes reports.
/// `None` means attaching succeeds.
pub open spec fn spec_attach_error(buffer: Vec<u8>) -> Option<QueueError> {
    let b = buffer@;
    let esz = spec_header_element_size(b);
    let cap = spec_capacity(b);
    if buffer.len() < HEADER_SIZE {
        Some(
            QueueError::Queue(
                MpmcQueueError::BufferTooSmall { required: HEADER_SIZE, provided: buffer.len() },
            ),
        )
    } else if esz > usize::MAX || cap > usize::MAX {
        Some(
            QueueError::Queue(
                MpmcQueueError::BufferTooSmall { required: usize::MAX, provided: buffer.len() },
            ),
        )
    } else {
        match spec_layout_error(buffer.len(), esz as usize, cap as usize) {
            Some(err) => Some(QueueError::Queue(err)),
            None => {
                if ring_invariant(b) && spec_dequeue_pos(b) + spec_capacity(b) <= u64::MAX {
                    None
                } else {
                    Some(QueueError::InvalidParameters)
                }
            },
        }
    }
}

/// Returns a zeroed record buffer of the given length.
fn record_buffer(n: usize) -> (r: Vec<u8>)
    ensures
        r@.len() == n,
{
    zero_vec(n)
}

/// Shared-region queue with a closeable lifecycle.
///
/// The queue owns its region bytes; `create` makes a fresh region, `attach`
/// adopts one made elsewhere, and `into_buffer` hands the region on.
pub struct Queue {
    ring: MpmcQueueOnBuffer,
    closed: bool,
}

impl Queue {
    /// The ring core this facade wraps.
    pub closed spec fn spec_ring(self) -> MpmcQueueOnBuffer {
        self.ring
    }

    /// Whether `close` has been called.
    pub closed spec fn is_closed(self) -> bool {
        self.closed
    }

    /// The raw bytes of the queue region.
    pub open spec fn bytes(self) -> Seq<u8> {
        self.spec_ring().bytes()
    }

    /// Structural invariant of the queue region.
    pub open spec fn wf(self) -> bool {
        self.spec_ring().wf()
    }

    /// Bytes per record.
    pub open spec fn element_size_spec(self) -> int {
        self.spec_ring().element_size()
    }

    /// Number of slots.
    pub open spec fn capacity_spec(self) -> int {
        self.spec_ring().capacity()
    }

    /// Producer cursor.
    pub open spec fn enqueue_pos_spec(self) -> int {
        self.spec_ring().enqueue_pos()
    }

    /// Consumer cursor.
    pub open spec fn dequeue_pos_spec(self) -> int {
        self.spec_ring().dequeue_pos()
    }

    /// Pending records, oldest first.
    pub open spec fn contents(self) -> Seq<Seq<u8>> {
        self.spec_ring().contents()
    }

    /// Resolves a creator's optional construction parameters: both element
    /// size and capacity are required when creating.
    pub fn resolve_create_params(element_size: Option<usize>, capacity: Option<usize>) -> (r:
        Result<(usize, usize), QueueError>)
        ensures
            match r {
                Ok(p) => element_size == Some(p.0) && capacity == Some(p.1),
                Err(e) => {
                    &&& (element_size is None || capacity is None)
                    &&& e == QueueError::InvalidParameters
                },
            },
    {
        match (element_size, capacity) {
            (Some(e), Some(c)) => Ok((e, c)),
            _ => Err(QueueError::InvalidParameters),
        }
    }

    /// Creates a queue with a fresh region sized by the layout formula.
    pub fn create(element_size: usize, capacity: usize) -> (r: Result<Queue, QueueError>)
        ensures
            match r {
                Ok(q) => {
                    &&& spec_create_error(element_size, capacity) is None
                    &&& q.wf()
                    &&& !q.is_closed()
                    &&& q.element_size_spec() == element_size as int
                    &&& q.capacity_spec() == capacity as int
                    &&& q.enqueue_pos_spec() == 0
                    &&& q.dequeue_pos_spec() == 0
                    &&& q.contents() == Seq::<Seq<u8>>::empty()
                    &&& q.bytes().len() == spec_required_size(
                        element_size as int,
                        capacity as int,
                    )
                },
                Err(e) => Some(e) == spec_create_error(element_size, capacity),
            },
    {
        if capacity < 2 {
            return Err(
                QueueError::Queue(
                    MpmcQueueError::BufferTooSmall { required: 2, provided: capacity },
                ),
            );
        }
        if find_pow2_exponent(capacity as u64).is_none() {
            return Err(
                QueueError::Queue(MpmcQueueError::BufferSizeNotPowerOfTwo { actual: capacity }),
            );
        }
        if element_size == 0 {
            return Err(
                QueueError::Queue(MpmcQueueError::BufferTooSmall { required: 1, provided: 0 }),
            );
        }
        proof {
            vstd::arithmetic::mul::lemma_mul_upper_bound(
                capacity as int,
                u64::MAX as int,
                element_size as int,
                u64::MAX as int,
            );
        }
        let data128 = (capacity as u128) * (element_size as u128);
        if data128 > (usize::MAX as u128) {
            return Err(QueueError::InvalidParameters);
        }
        let req128 = (HEADER_SIZE as u128) + (CELL_SIZE as u128) * (capacity as u128) + data128;
        if req128 > (usize::MAX as u128) {
            return Err(QueueError::InvalidParameters);
        }
        let required = compute_required_size(element_size, capacity);
        let buffer = zero_vec(required);
        match MpmcQueueOnBuffer::init_on_buffer(buffer, element_size, capacity, true) {
            Ok(ring) => Ok(Queue { ring, closed: false }),
            Err(_) => {
                proof {
                    assert(false);
                }
                Err(QueueError::InvalidParameters)
            },
        }
    }

    /// Attaches to the region bytes of an already-initialized queue: decodes
    /// the header, validates the layout against the region length, and
    /// rejects a region that does not hold a coherent queue state.
    pub fn attach(buffer: Vec<u8>) -> (r: Result<Queue, QueueError>)
        ensures
            match r {
                Ok(q) => {
                    &&& spec_attach_error(buffer) is None
                    &&& q.wf()
                    &&& !q.is_closed()
                    &&& q.bytes() == buffer@
                    &&& q.element_size_spec() == spec_header_element_size(buffer@)
                    &&& q.capacity_spec() == spec_capacity(buffer@)
                    &&& q.contents() == ring_contents(buffer@)
                },
                Err(e) => Some(e) == spec_attach_error(buffer),
            },
    {
        if buffer.len() < HEADER_SIZE {
            return Err(
                QueueError::Queue(
                    MpmcQueueError::BufferTooSmall {
                        required: HEADER_SIZE,
                        provided: buffer.len(),
                    },
                ),
            );
        }
        let esz64 = crate::bytes::read_word(&buffer, ELEMENT_SIZE_OFFSET);
        let mask64 = crate::bytes::read_word(&buffer, crate::mpmc_queue::BUFFER_MASK_OFFSET);
        if esz64 > (usize::MAX as u64) || mask64 >= (usize::MAX as u64) {
            return Err(
                QueueError::Queue(
                    MpmcQueueError::BufferTooSmall {
                        required: usize::MAX,
                        provided: buffer.len(),
                    },
                ),
            );
        }
        let element_size = esz64 as usize;
        let capacity = (mask64 + 1) as usize;
        match crate::mpmc_queue::validate_and_compute_layout(&buffer, element_size, capacity) {
            Err(e) => {
                return Err(QueueError::Queue(e));
            },
            Ok(_) => {},
        }
        if !check_ring_state(&buffer) {
            return Err(QueueError::InvalidParameters);
        }
        match MpmcQueueOnBuffer::init_on_buffer(buffer, element_size, capacity, false) {
            Ok(ring) => Ok(Queue { ring, closed: false }),
            Err(_) => {
                proof {
                    assert(false);
                }
                Err(QueueError::InvalidParameters)
            },
        }
    }

    /// Consumes the queue and hands back the raw region bytes.
    pub fn into_buffer(self) -> (r: Vec<u8>)
        ensures
            r@ == self.bytes(),
    {
        self.ring.into_buffer()
    }

    /// Checks whether the queue is active.
    pub fn check_active(&self) -> (r: Result<(), QueueError>)
        ensures
            match r {
                Ok(()) => !self.is_closed(),
                Err(e) => self.is_closed() && e == QueueError::QueueClosed,
            },
    {
        if self.closed {
            Err(QueueError::QueueClosed)
        } else {
            Ok(())
        }
    }

    /// Non-blocking put: appends one record to the pending sequence.
    ///
    /// Succeeds exactly when the queue is open, the item holds
    /// `element_size` bytes, and fewer than `capacity` records are pending.
    /// The precondition keeps the 64-bit producer cursor, which advances by
    /// one per successful put, short of wrap: a machine limit.
    pub fn put_nowait(&mut self, item: &[u8]) -> (r: Result<(), QueueError>)
        requires
            old(self).wf(),
            old(self).enqueue_pos_spec() + 1 <= u64::MAX,
        ensures
            final(self).wf(),
            final(self).is_closed() == old(self).is_closed(),
            final(self).element_size_spec() == old(self).element_size_spec(),
            final(self).capacity_spec() == old(self).capacity_spec(),
            match r {
                Ok(()) => {
                    &&& !old(self).is_closed()
                    &&& item@.len() == old(self).element_size_spec()
                    &&& old(self).contents().len() < old(self).capacity_spec()
                    &&& final(self).contents() == old(self).contents().push(item@)
                    &&& final(self).enqueue_pos_spec() == old(self).enqueue_pos_spec() + 1
                    &&& final(self).dequeue_pos_spec() == old(self).dequeue_pos_spec()
                },
                Err(e) => {
                    &&& final(self).bytes() == old(self).bytes()
                    &&& (e == QueueError::QueueClosed <==> old(self).is_closed())
                    &&& (e matches QueueError::Queue(err) ==> !old(self).is_closed() && (
                    (err matches MpmcQueueError::InvalidSourceLength { expected, actual } ==> (
                    item@.len() != old(self).element_size_spec() && expected as int == old(
                        self,
                    ).element_size_spec() && actual == item@.len())) && (err
                        == MpmcQueueError::QueueFull ==> (item@.len() == old(
                        self,
                    ).element_size_spec() && old(self).contents().len() == old(
                        self,
                    ).capacity_spec())) && ((err matches MpmcQueueError::InvalidSourceLength {
                        ..
                    }) || err == MpmcQueueError::QueueFull)))
                    &&& (e == QueueError::QueueClosed || e matches QueueError::Queue(..))
                },
            },
    {
        match self.check_active() {
            Err(e) => {
                return Err(e);
            },
            Ok(()) => {},
        }
        match self.ring.enqueue(item) {
            Ok(()) => Ok(()),
            Err(e) => Err(QueueError::Queue(e)),
        }
    }

    /// Non-blocking get: removes and returns the oldest pending record.
    ///
    /// Succeeds exactly when the queue is open and a record is pending; the
    /// returned bytes have length `element_size`. The precondition keeps
    /// the 64-bit consumer cursor, which advances by one per successful
    /// get, a capacity short of wrap: a machine limit.
    #[verifier::rlimit(100)]
    pub fn get_nowait(&mut self) -> (r: Result<Vec<u8>, QueueError>)
        requires
            old(self).wf(),
            old(self).dequeue_pos_spec() + old(self).capacity_spec() <= u64::MAX,
        ensures
            final(self).wf(),
            final(self).is_closed() == old(self).is_closed(),
            final(self).element_size_spec() == old(self).element_size_spec(),
            final(self).capacity_spec() == old(self).capacity_spec(),
            match r {
                Ok(v) => {
                    &&& !old(self).is_closed()
                    &&& old(self).contents().len() > 0
                    &&& v@ == old(self).contents()[0]
                    &&& v@.len() == old(self).element_size_spec()
                    &&& final(self).contents() == old(self).contents().subrange(
                        1,
                        old(self).contents().len() as int,
                    )
                    &&& final(self).dequeue_pos_spec() == old(self).dequeue_pos_spec() + 1
                    &&& final(self).enqueue_pos_spec() == old(self).enqueue_pos_spec()
                },
                Err(e) => {
                    &&& final(self).bytes() == old(self).bytes()
                    &&& (e == QueueError::QueueClosed <==> old(self).is_closed())
                    &&& (e == QueueError::Queue(MpmcQueueError::QueueEmpty) ==> old(
                        self,
                    ).contents().len() == 0)
                    &&& (e == QueueError::QueueClosed || e == QueueError::Queue(
                        MpmcQueueError::QueueEmpty,
                    ))
                },
            },
    {
        match self.check_active() {
            Err(e) => {
                return Err(e);
            },
            Ok(()) => {},
        }
        proof {
            self.ring.lemma_bounds();
            self.ring.lemma_contents_wf();
        }
        let header = self.ring.header();
        let mut buf = record_buffer(header.element_size);
        match self.ring.dequeue(&mut buf) {
            Ok(()) => Ok(buf),
            Err(e) => Err(QueueError::Queue(e)),
        }
    }

    /// Estimated number of pending records: the difference of the cursors.
    /// In this quiescent, exclusively borrowed queue the estimate is exact.
    pub fn len(&self) -> (r: Result<usize, QueueError>)
        requires
            self.wf(),
        ensures
            match r {
                Ok(n) => !self.is_closed() && n as int == self.contents().len(),
                Err(e) => self.is_closed() && e == QueueError::QueueClosed,
            },
    {
        match self.check_active() {
            Err(e) => {
                return Err(e);
            },
            Ok(()) => {},
        }
        proof {
            self.ring.lemma_bounds();
        }
        let header = self.ring.header();
        let diff = header.enqueue_pos - header.dequeue_pos;
        Ok(diff as usize)
    }

    /// Whether no record is pending.
    pub fn empty(&self) -> (r: Result<bool, QueueError>)
        requires
            self.wf(),
        ensures
            match r {
                Ok(b) => !self.is_closed() && b == (self.contents().len() == 0),
                Err(e) => self.is_closed() && e == QueueError::QueueClosed,
            },
    {
        match self.len() {
            Ok(n) => Ok(n == 0),
            Err(e) => Err(e),
        }
    }

    /// Whether `capacity` records are pending.
    pub fn full(&self) -> (r: Result<bool, QueueError>)
        requires
            self.wf(),
        ensures
            match r {
                Ok(b) => !self.is_closed() && b == (self.contents().len()
                    >= self.capacity_spec()),
                Err(e) => self.is_closed() && e == QueueError::QueueClosed,
            },
    {
        match self.check_active() {
            Err(e) => {
                return Err(e);
            },
            Ok(()) => {},
        }
        proof {
            self.ring.lemma_bounds();
        }
        let header = self.ring.header();
        let diff = header.enqueue_pos - header.dequeue_pos;
        Ok(diff as usize >= header.buffer_mask + 1)
    }

    /// Bytes per record.
    pub fn element_size(&self) -> (r: Result<usize, QueueError>)
        requires
            self.wf(),
        ensures
            match r {
                Ok(n) => !self.is_closed() && n as int == self.element_size_spec(),
                Err(e) => self.is_closed() && e == QueueError::QueueClosed,
            },
    {
        match self.check_active() {
            Err(e) => {
                return Err(e);
            },
            Ok(()) => {},
        }
        let header = self.ring.header();
        Ok(header.element_size)
    }

    /// Maximum number of pending records.
    pub fn maxsize(&self) -> (r: Result<usize, QueueError>)
        requires
            self.wf(),
        ensures
            match r {
                Ok(n) => !self.is_closed() && n as int == self.capacity_spec(),
                Err(e) => self.is_closed() && e == QueueError::QueueClosed,
            },
    {
        match self.check_active() {
            Err(e) => {
                return Err(e);
            },
            Ok(()) => {},
        }
        proof {
            self.ring.lemma_bounds();
        }
        let header = self.ring.header();
        Ok(header.buffer_mask + 1)
    }

    /// Marks the queue closed. Idempotent: closing a closed queue leaves it
    /// closed, and the region is never modified.
    pub fn close(&mut self)
        ensures
            final(self).is_closed(),
            final(self).bytes() == old(self).bytes(),
            final(self).contents() == old(self).contents(),
    {
        self.closed = true;
    }
}

/// Whether a blocking wrapper should stop retrying: true exactly when a
/// timeout is set and the elapsed time exceeds it. With no timeout the
/// wrapper waits indefinitely.
pub fn wait_should_give_up(timeout_ms: Option<u64>, elapsed_ms: u64) -> (r: bool)
    ensures
        r == (timeout_ms matches Some(t) && elapsed_ms > t),
{
    match timeout_ms {
        Some(t) => elapsed_ms > t,
        None => false,
    }
}

/// The sleep quantum, in milliseconds, a blocking wrapper waits between
/// attempts.
pub fn wait_quantum_ms() -> (r: u64)
    ensures
        r == 1,
{
    1
}

} // verus!
