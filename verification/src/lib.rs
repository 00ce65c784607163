//! An embedded, ordered key-value storage engine organised as a log-structured
//! merge tree: blocks, sorted-string tables, merging iterators and the storage
//! coordinator that serves reads, writes and range scans.

pub mod block;
pub mod buffer;
pub mod cache;
pub mod codec;
pub mod entry;
pub mod error;
pub mod iterators;
pub mod key;
pub mod lsm_iterator;
pub mod lsm_storage;
pub mod mem_table;
pub mod reads;
pub mod table;
