//! A live-collection synchronization core: a poll-and-diff engine that keeps
//! one current snapshot of an upstream collection and fans incremental change
//! events out to any number of subscribers over bounded queues.

pub mod events;
pub mod excerpt;
pub mod fanout;
pub mod ids;
pub mod state;
