//! An embedded, single-file key-value store that persists structured
//! documents in fixed-size pages of a memory-mapped region and maintains
//! in-memory secondary indexes for equality lookups on document fields.

pub mod codec;
pub mod db;
pub mod doc;
pub mod error;
pub mod page;
pub mod pager;
pub mod primary;
pub mod secondary;
pub mod util;

pub use crate::db::YourDb;
pub use crate::error::DbError;
