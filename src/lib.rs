//! A single-threaded cooperative scheduler: tasks are resumed one at a time,
//! in round-robin order, until each reports that it has finished.
pub mod demo;
pub mod executor;
pub mod fairness;
pub mod signal;
pub mod suspend;
pub mod task;
