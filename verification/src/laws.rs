//! Queue laws: properties that relate several operations, stated over the
//! mathematical model the operation contracts use and proved once for all
//! queues.

use crate::mpmc_queue::{
    is_power_of_two, lemma_wf_region_bounds, ring_invariant, spec_capacity, spec_dequeue_pos,
    spec_header_element_size, spec_layout_error, spec_required_size, MpmcQueueError,
    HEADER_SIZE,
};
use crate::queue::{spec_attach_error, Queue, QueueError};
use vstd::multiset::Multiset;
use vstd::prelude::*;

verus! {

/// Layout determinism: the required region size is a pure function of
/// element size and capacity, so two independent computations from equal
/// inputs yield equal results.
pub proof fn lemma_required_size_deterministic(e1: int, c1: int, e2: int, c2: int)
    requires
        e1 == e2,
        c1 == c2,
    ensures
        spec_required_size(e1, c1) == spec_required_size(e2, c2),
{
}

/// Round-trip identity: a lone `put_nowait` of record `b` into an empty
/// queue followed by a lone `get_nowait` returns `b` and leaves the queue
/// empty. `put_nowait` turns contents `s` into `s.push(b)`; `get_nowait`
/// returns the head and keeps the tail; this law composes the two.
pub proof fn lemma_round_trip(s: Seq<Seq<u8>>, b: Seq<u8>)
    requires
        s.len() == 0,
    ensures
        s.push(b)[0] == b,
        s.push(b).subrange(1, s.push(b).len() as int) == s,
{
    assert(s.push(b).subrange(1, s.push(b).len() as int) =~= s);
}

/// The contents of a queue that started with `s` after putting `items`, one
/// by one, oldest first.
pub open spec fn pushed_all(s: Seq<Seq<u8>>, items: Seq<Seq<u8>>) -> Seq<Seq<u8>>
    decreases items.len(),
{
    if items.len() == 0 {
        s
    } else {
        pushed_all(s.push(items[0]), items.subrange(1, items.len() as int))
    }
}

/// Putting a batch of records appends it to the pending sequence: the queue
/// keeps arrival order.
pub proof fn lemma_pushed_all_appends(s: Seq<Seq<u8>>, items: Seq<Seq<u8>>)
    ensures
        pushed_all(s, items) == s + items,
    decreases items.len(),
{
    if items.len() == 0 {
        assert(pushed_all(s, items) =~= s + items);
    } else {
        lemma_pushed_all_appends(s.push(items[0]), items.subrange(1, items.len() as int));
        assert(s.push(items[0]) + items.subrange(1, items.len() as int) =~= s + items);
    }
}

/// FIFO under a single producer and a single consumer: a queue that started
/// empty and received `items` holds exactly `items`; after `k` gets it holds
/// `items.subrange(k, ..)`, so the next get returns `items[k]` and leaves
/// `items.subrange(k + 1, ..)` — records come out in the order they went in.
pub proof fn lemma_fifo(items: Seq<Seq<u8>>, k: int)
    requires
        0 <= k < items.len(),
    ensures
        pushed_all(Seq::<Seq<u8>>::empty(), items) == items,
        items.subrange(k, items.len() as int)[0] == items[k],
        items.subrange(k, items.len() as int).subrange(1, items.len() - k) == items.subrange(
            k + 1,
            items.len() as int,
        ),
{
    lemma_pushed_all_appends(Seq::<Seq<u8>>::empty(), items);
    assert(Seq::<Seq<u8>>::empty() + items =~= items);
    assert(items.subrange(k, items.len() as int).subrange(1, items.len() - k) =~= items.subrange(
        k + 1,
        items.len() as int,
    ));
}

/// No duplication on put: a successful `put_nowait` of `b` adds exactly one
/// copy of `b` to the pending multiset and changes nothing else.
pub proof fn lemma_put_conserves_records(s: Seq<Seq<u8>>, b: Seq<u8>)
    ensures
        s.push(b).to_multiset() == s.to_multiset().insert(b),
        s.push(b).len() == s.len() + 1,
{
    s.to_multiset_ensures();
    assert(s.push(b).to_multiset() =~= s.to_multiset().insert(b));
}

/// No loss on get: a successful `get_nowait` removes exactly one copy of the
/// head from the pending multiset and changes nothing else. Together with
/// the put law: over any run, the multiset of records got plus the records
/// still pending equals the multiset of records put.
pub proof fn lemma_get_conserves_records(s: Seq<Seq<u8>>)
    requires
        s.len() > 0,
    ensures
        s.subrange(1, s.len() as int).to_multiset() == s.to_multiset().remove(s[0]),
        s.subrange(1, s.len() as int).len() == s.len() - 1,
{
    s.to_multiset_ensures();
    assert(s.remove(0) =~= s.subrange(1, s.len() as int));
    assert(s.subrange(1, s.len() as int).to_multiset() =~= s.to_multiset().remove(s[0]));
}

/// Bounded occupancy: a well-formed queue never holds fewer than zero or
/// more than `capacity` pending records. (That no `put_nowait` succeeds at
/// `capacity` pending records is part of its contract.)
pub proof fn lemma_bounded_occupancy(q: Queue)
    requires
        q.wf(),
    ensures
        0 <= q.contents().len() <= q.capacity_spec(),
{
    q.spec_ring().lemma_contents_wf();
}

/// Cross-process attach: a region that satisfies the ring invariant — as
/// every region written by a creator or a previous holder does — is accepted
/// by `attach`, which then reads element size and capacity from the header
/// the creator wrote. The one proviso is that the consumer cursor is more
/// than a capacity away from the end of its 64-bit range.
pub proof fn lemma_attach_accepts_coherent_region(buffer: Vec<u8>)
    requires
        ring_invariant(buffer@),
        spec_dequeue_pos(buffer@) + spec_capacity(buffer@) <= u64::MAX,
    ensures
        spec_attach_error(buffer) is None,
{
    lemma_wf_region_bounds(buffer@);
    assert(buffer.len() == buffer@.len());
}

/// Attach rejects a corrupt layout: a region shorter than the required size
/// of the element size and capacity its header declares is refused with
/// `BufferTooSmall`.
pub proof fn lemma_attach_rejects_short_region(buffer: Vec<u8>)
    requires
        HEADER_SIZE <= buffer.len(),
        2 <= spec_capacity(buffer@) <= usize::MAX,
        is_power_of_two(spec_capacity(buffer@)),
        1 <= spec_header_element_size(buffer@) <= usize::MAX,
        (buffer.len() as int) < spec_required_size(
            spec_header_element_size(buffer@),
            spec_capacity(buffer@),
        ),
    ensures
        spec_attach_error(buffer) matches Some(
            QueueError::Queue(MpmcQueueError::BufferTooSmall { .. }),
        ),
{
    let b = buffer@;
    let esz = spec_header_element_size(b);
    let cap = spec_capacity(b);
    assert(spec_layout_error(buffer.len(), esz as usize, cap as usize) matches Some(
        MpmcQueueError::BufferTooSmall { .. },
    ));
}

/// One successful operation of a run: a put of a record, or a get.
pub enum RunStep {
    Put(Seq<u8>),
    Get,
}

/// The pending records after a run of successful operations on a queue that
/// started empty: each put appended its record, each get removed the oldest.
pub open spec fn run_pending(ops: Seq<RunStep>) -> Seq<Seq<u8>>
    decreases ops.len(),
{
    if ops.len() == 0 {
        Seq::empty()
    } else {
        let prev = run_pending(ops.drop_last());
        match ops.last() {
            RunStep::Put(b) => prev.push(b),
            RunStep::Get => prev.drop_first(),
        }
    }
}

/// A run is valid when every get found a pending record — which is exactly
/// when `get_nowait` succeeds.
pub open spec fn run_valid(ops: Seq<RunStep>) -> bool
    decreases ops.len(),
{
    if ops.len() == 0 {
        true
    } else {
        run_valid(ops.drop_last()) && (ops.last() is Get ==> run_pending(ops.drop_last()).len()
            > 0)
    }
}

/// The multiset of records the run's puts submitted.
pub open spec fn run_put_records(ops: Seq<RunStep>) -> Multiset<Seq<u8>>
    decreases ops.len(),
{
    if ops.len() == 0 {
        Multiset::empty()
    } else {
        let prev = run_put_records(ops.drop_last());
        match ops.last() {
            RunStep::Put(b) => prev.insert(b),
            RunStep::Get => prev,
        }
    }
}

/// The multiset of records the run's gets returned.
pub open spec fn run_got_records(ops: Seq<RunStep>) -> Multiset<Seq<u8>>
    decreases ops.len(),
{
    if ops.len() == 0 {
        Multiset::empty()
    } else {
        let prev = run_got_records(ops.drop_last());
        match ops.last() {
            RunStep::Put(b) => prev,
            RunStep::Get => prev.insert(run_pending(ops.drop_last()).first()),
        }
    }
}

/// No duplication, no loss: over any valid run of successful puts and gets,
/// the records the gets returned plus the records still pending are, as a
/// multiset, exactly the records the puts submitted; and the number of puts
/// equals the number of gets plus the final occupancy.
pub proof fn lemma_no_duplication_no_loss(ops: Seq<RunStep>)
    requires
        run_valid(ops),
    ensures
        run_got_records(ops).add(run_pending(ops).to_multiset()) == run_put_records(ops),
        run_put_records(ops).len() == run_got_records(ops).len() + run_pending(ops).len(),
    decreases ops.len(),
{
    broadcast use vstd::multiset::group_multiset_axioms;

    if ops.len() == 0 {
        let empty_pending = run_pending(ops);
        empty_pending.to_multiset_ensures();
        assert(run_got_records(ops).add(empty_pending.to_multiset())
            =~= run_put_records(ops));
    } else {
        let rest = ops.drop_last();
        lemma_no_duplication_no_loss(rest);
        let prev_pending = run_pending(rest);
        prev_pending.to_multiset_ensures();
        match ops.last() {
            RunStep::Put(b) => {
                assert(run_pending(ops) == prev_pending.push(b));
                assert(run_got_records(ops).add(run_pending(ops).to_multiset())
                    =~= run_put_records(ops));
            },
            RunStep::Get => {
                assert(prev_pending.remove(0) =~= prev_pending.drop_first());
                assert(prev_pending.drop_first().to_multiset() == prev_pending.to_multiset()
                    .remove(prev_pending.first()));
                assert(prev_pending.to_multiset().contains(prev_pending.first())) by {
                    assert(prev_pending.contains(prev_pending.first()));
                }
                assert(run_got_records(ops).add(run_pending(ops).to_multiset())
                    =~= run_put_records(ops));
            },
        }
    }
}

} // verus!
