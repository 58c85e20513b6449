//! The engine behind the task API.
pub mod cancel;
pub mod dependencies;
pub mod descendants;
pub mod error;
pub mod events;
pub mod fresh;
pub mod invariants;
pub mod lifecycle;
pub mod logs;
pub mod model;
pub mod restart;
pub mod start;
pub mod state;
pub mod streams;
pub mod supervisor;
pub mod tasks;
pub mod tree;
pub mod waiter;
