//! What the store keeps of a write.

pub mod format;
