//! An in-memory collection of task items with create/read/update/delete
//! operations, each returning the full resulting collection.

pub mod handlers;
pub mod laws;
pub mod store;
pub mod todo;
