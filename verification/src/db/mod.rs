//! What the run store holds.
pub mod entities;
pub mod schema;
