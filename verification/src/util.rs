//! The codings of integers, checksums, the order of keys, and the error that
//! every part of the store reports.

pub mod coding;
pub mod comparator;
pub mod crc32;
pub mod status;
pub mod varint;
