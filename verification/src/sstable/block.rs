//! Blocks.
//!
//! A block holds entries, each a key with its value, and ends with its
//! restart points:
//!
//! ```text
//!     +---------+---------+-----+---------+----------------+----------------+
//!     | entry 1 | entry 2 | ... | entry n | restart points | number of them |
//!     +---------+---------+-----+---------+----------------+----------------+
//! ```
//!
//! An entry leaves out the bytes that its key shares with the key before it:
//!
//! ```text
//!     +-----------------+---------------------+--------------------+------------+-------+
//!     | shared (varint) | not shared (varint) | value len (varint) | rest of key | value |
//!     +-----------------+---------------------+--------------------+------------+-------+
//! ```
//!
//! At a restart point the key is stored whole. The first entry is a restart
//! point, and after it every entry whose index is a multiple of the restart
//! interval. The restart points are the offsets of these entries, four bytes
//! each in little-endian byte order, and so is their number.

pub mod builder;
pub mod format;
pub mod laws;
pub mod reader;
