//! Core of a read-through cache for a rate-limited upstream service.
//!
//! The crate has two layers. [`store`] is a bounded cache keyed by stop
//! identifier: each entry carries an expiry instant, reads ignore lapsed
//! entries, and writes evict the least recently written entry when the
//! capacity bound would be exceeded. [`coord`] wraps the store with the
//! coordination policy for concurrent misses: while a fetch for a key is in
//! flight, further callers for the same key join it as followers instead of
//! issuing a second fetch.
//!
//! Time is passed in explicitly as a monotonic timestamp, so the whole cache
//! discipline is stated and proved here; the caller supplies the clock, the
//! network transport and the scheduler.

pub mod coord;
pub mod store;
