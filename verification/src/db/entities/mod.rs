//! The rows of the run store.
pub mod task_run;
pub mod task_run_log;
