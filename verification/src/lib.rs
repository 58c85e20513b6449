//! The task-run engine of a local task runner: the lifecycle of runs, the
//! rules that couple runs to each other, and the cleaning of their output.
pub mod api;
pub mod config;
pub mod db;
pub mod sanitize;
pub mod text;
