//! Completion order of tasks on a single non-preemptive processor that
//! always runs the shortest task among those that have arrived.

pub mod backlog;
pub mod laws;
pub mod model;
pub mod ready;
pub mod scheduler;
pub mod task;

pub use scheduler::{execution_order, execution_order_original};
pub use task::Task;
