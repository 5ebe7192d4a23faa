//! Core data structures of an LSM-tree key-value store: integer framing,
//! sorted blocks with prefix-compressed keys, an ordered in-memory map, the
//! memtable built on it, and a merging iterator over sorted streams.
pub mod codec;
pub mod types;
pub mod skipmap;
pub mod memtable;
pub mod block;
pub mod options;
pub mod iterator;
pub mod merging_iter;
pub mod env;
pub mod table;
