//! A multi-queue write-ahead log: many named queues share one global position
//! space and one sequence of segment files, with an in-memory index per queue.
pub mod mem;
pub mod record;
pub mod multi_record_log;
pub mod segment_name;
