//! An in-memory store of records kept apart by type, for use where a real
//! database would stand: records are JSON values, selected with modql filters,
//! and each type has its own collection and sequence counter.

pub mod collection;
pub mod error;
pub mod laws;
pub mod record;
pub mod store;

pub use error::Error;
pub use store::Store;
