//! Sequential and queue-shaped collections with verified contracts:
//! a binary max-heap priority queue and a linked FIFO queue with a
//! sentinel node, a lazily advanced tail cursor and deferred slot
//! reclamation.

pub mod linked_queue;
pub mod priority_queue;
pub mod trace;
