//! The core of a log-structured, ordered key/value store.
//!
//! The store keeps every write under an internal key, which holds the key
//! that the user gave and the sequence number of the write (`db::format`).
//! Writes are collected in a memtable (`mem`) and, from there, written to
//! table files. A table file is made of blocks of entries
//! (`sstable::block`), each stored with a trailer that holds its checksum
//! (`sstable::table`), and ends with a footer that says where its index is
//! (`sstable`). The codings of integers that all of these are built from are
//! in `util`.
//!
//! This crate holds what these parts mean and compute. It reads and writes
//! no file.

pub mod db;
pub mod mem;
pub mod options;
pub mod sstable;
pub mod util;

pub use options::CompressionType;
pub use sstable::block::reader::Block;
pub use util::comparator::Comparator;
pub use util::status::{Status, WickErr};
pub use util::varint::{VarintU32, VarintU64, MAX_VARINT_LEN_U32, MAX_VARINT_LEN_U64};
