//! A persistent registry of events and their participants.
//!
//! The registry maps a `u64` event identifier to an [`event::Event`]: a name,
//! a date, and an ordered list of participant addresses. Three operations
//! mutate it: creating an event (rejecting a duplicate `(name, date)` pair),
//! joining an event (rejecting a duplicate address), and cancelling a
//! participant's membership. Records are persisted as length-prefixed bytes
//! in a stable B-tree map; the byte codec is verified to round-trip.

pub mod codec;
pub mod event;
pub mod registry;
pub mod store;
