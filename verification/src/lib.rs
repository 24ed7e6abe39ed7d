//! Core of a small single-node relational database: an LRU-K page replacer,
//! a buffer pool over a page store, a slotted table-page format, and a
//! query-execution engine that interprets planned operator trees.

pub mod error;
pub mod codec;
pub mod field;
pub mod row;
pub mod tuple;
pub mod expr;
pub mod table_page;
pub mod replacer;
pub mod disk;
pub mod buffer_pool;
pub mod transform;
pub mod join;
pub mod aggregate;
pub mod engine;
pub mod write;
pub mod execute;
