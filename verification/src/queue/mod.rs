//! Persistent queues over a record store.

pub mod blocking;
pub mod laws;
pub mod long;

pub use blocking::{Mode, PersistentBlockingQueue, Waiting};
pub use long::{Node, QueueLong, QueueLongTakeUntil, QueueLongVisitor};
