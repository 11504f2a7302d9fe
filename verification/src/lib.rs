//! A small embedded record store: rows of named, typed values, found by row
//! identifier, by attribute name, by exact entry or by predicate.
//!
//! A store keeps its rows by identifier and two indexes beside them, one by
//! name and one by entry. Every operation that changes a store keeps the
//! indexes in step with the rows; `Db::wf` says what that means.

pub mod entry;
pub mod find;
pub mod index;
pub mod laws;
pub mod persist;
pub mod query;
pub mod shorthand;
pub mod store;
pub mod value;

pub use entry::{Entry, EntryView, Predicate, PredicateType, PredicateView, RowId};
pub use persist::{Row, RowView};
pub use query::{minus, sorted_unique};
pub use store::Db;
pub use value::{Data, DataView, DbError, Timestamp};
