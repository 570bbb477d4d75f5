//! A bounded, fixed-element-size, multi-producer / multi-consumer queue whose
//! state lives in a single contiguous byte region, laid out deterministically
//! so that independent parties can share it.
//!
//! The ring core ([`mpmc_queue`]) validates the layout, initializes or attaches
//! to a region, and offers non-blocking enqueue / dequeue of fixed-size byte
//! records. The facade ([`queue`]) composes construction, lifecycle and the
//! close protocol on top of the core.

pub mod bytes;
pub mod laws;
pub mod mpmc_queue;
pub mod queue;
