//! Per-slot frame queues and the scheduler that serves them.
pub mod priority_queue;
pub mod round_robin;
