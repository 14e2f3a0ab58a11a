//! Performing the entries of a partially ordered node's subtask queue.
pub mod method;
pub mod action;
pub mod htn;
pub mod task;
