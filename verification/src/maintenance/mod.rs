//! Background maintenance: the jobs, their records, and the queue that
//! hands them out by priority.
pub mod job;
pub mod runtime;
pub mod scheduler;
