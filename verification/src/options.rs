//! What a caller chooses.

use vstd::prelude::*;

verus! {

/// How the contents of a block are stored.
#[derive(Clone, Copy, Debug, PartialEq, Eq, Structural)]
pub enum CompressionType {
    /// As they are.
    NoCompression,
    /// Compressed with Snappy.
    SnappyCompression,
}

impl CompressionType {
    /// The byte that stands for the way of storing in the trailer of a
    /// block.
    pub open spec fn tag_of(self) -> u8 {
        match self {
            CompressionType::NoCompression => 0,
            CompressionType::SnappyCompression => 1,
        }
    }

    /// The way of storing that the byte `tag` stands for, if it stands for
    /// one.
    pub open spec fn of_tag(tag: u8) -> Option<CompressionType> {
        if tag == 0 {
            Some(CompressionType::NoCompression)
        } else if tag == 1 {
            Some(CompressionType::SnappyCompression)
        } else {
            None
        }
    }

    /// Returns the byte that stands for the way of storing.
    pub fn tag(self) -> (tag: u8)
        ensures
            tag == self.tag_of(),
    {
        match self {
            CompressionType::NoCompression => 0,
            CompressionType::SnappyCompression => 1,
        }
    }

    /// Returns the way of storing that `tag` stands for, if it stands for
    /// one.
    pub fn from_tag(tag: u8) -> (found: Option<CompressionType>)
        ensures
            found == Self::of_tag(tag),
    {
        if tag == 0 {
            Some(CompressionType::NoCompression)
        } else if tag == 1 {
            Some(CompressionType::SnappyCompression)
        } else {
            None
        }
    }
}

} // verus!
