//! An in-memory store of task records, with the rules by which tasks are
//! numbered, toggled, removed and mirrored to durable storage.
//!
//! [`store`] holds the executable store, [`task`] the record it keeps.
//! [`model`] says what each operation makes of the collection, as functions
//! on mathematical sequences, and [`history`] what holds after any number of
//! operations.

pub mod history;
pub mod model;
pub mod store;
pub mod task;

pub use crate::store::{Outcome, StoreError, TaskStore};
pub use crate::task::{Task, TaskView};
