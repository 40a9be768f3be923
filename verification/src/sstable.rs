//! Table files.
//!
//! A table is a run of data blocks, an optional filter block, a metaindex
//! block, an index block and a footer. Each block is followed by a trailer of
//! five bytes: the compression type and a checksum. The footer has a fixed
//! length:
//!
//! ```text
//!       +------------------- 40 bytes -------------------+
//!      /                                                  \
//!     +------------------------+--------------------+------+-----------------+
//!     | metaindex block handle | index block handle | ---- | magic (8 bytes) |
//!     +------------------------+--------------------+------+-----------------+
//! ```
//!
//! A handle is the offset and the size of a block, as two varints. The room
//! that the two handles leave of the forty bytes is filled with zeros. The
//! magic number is stored in little-endian byte order.

pub mod block;
pub mod table;

use crate::util::coding::{
    decode_fixed_64, fixed64_decoding, fixed64_encoding, le_value, lemma_fixed64_round_trip,
    lemma_le_bytes_of_value, put_fixed_64,
};
use crate::util::status::{corruption, Status, WickErr};
use crate::util::varint::{
    lemma_span_bounds, lemma_varint_u64_len, lemma_varint_u64_round_trip, varint_encoding, varint_u64_decoding,
    VarintU64, MAX_VARINT_LEN_U64,
};
use vstd::prelude::*;

verus! {

/// The number that ends every table file.
pub const TABLE_MAGIC_NUMBER: u64 = 0xdb4775248b80fb57;

/// The length of the trailer that follows every block: one byte for the
/// compression type and four for the checksum.
pub const BLOCK_TRAILER_SIZE: usize = 5;

/// The most bytes that an encoded `BlockHandle` takes.
pub const MAX_BLOCK_HANDLE_ENCODE_LENGTH: usize = 2 * MAX_VARINT_LEN_U64;

/// The length of an encoded `Footer`: room for two block handles, and the
/// magic number.
pub const FOOTER_ENCODED_LENGTH: usize = 2 * MAX_BLOCK_HANDLE_ENCODE_LENGTH + 8;

/// `BlockHandle` points to the extent of a file that stores a data block or a
/// meta block.
#[derive(Eq, PartialEq, Debug, Structural)]
pub struct BlockHandle {
    pub offset: u64,
    /// The block trailer is not counted.
    pub size: u64,
}

impl BlockHandle {
    /// The bytes that stand for the handle: the varint of its offset, then
    /// that of its size.
    pub open spec fn encoding(self) -> Seq<u8> {
        varint_encoding(self.offset as nat) + varint_encoding(self.size as nat)
    }

    /// The handle that `s` starts with, and the number of bytes it takes.
    /// `None` where `s` does not start with two varints of `u64` numbers.
    pub open spec fn decoding(s: Seq<u8>) -> Option<(BlockHandle, nat)> {
        match varint_u64_decoding(s) {
            Some((offset, n)) => match varint_u64_decoding(s.skip(n as int)) {
                Some((size, m)) => Some((BlockHandle { offset, size }, n + m)),
                None => None,
            },
            None => None,
        }
    }

    pub fn new(offset: u64, size: u64) -> (handle: Self)
        ensures
            handle == (BlockHandle { offset, size }),
    {
        Self { offset, size }
    }

    #[inline]
    pub fn set_offset(&mut self, offset: u64)
        ensures
            *final(self) == (BlockHandle { offset, size: old(self).size }),
    {
        self.offset = offset;
    }

    #[inline]
    pub fn set_size(&mut self, size: u64)
        ensures
            *final(self) == (BlockHandle { offset: old(self).offset, size }),
    {
        self.size = size
    }

    /// Appends the encoded handle to `dst`.
    #[inline]
    pub fn encoded_to(&self, dst: &mut Vec<u8>)
        ensures
            final(dst)@ == old(dst)@ + self.encoding(),
    {
        VarintU64::put_varint(dst, self.offset);
        VarintU64::put_varint(dst, self.size);
        assert(dst@ =~= old(dst)@ + self.encoding());
    }

    /// Returns the encoded handle.
    #[inline]
    pub fn encoded(&self) -> (v: Vec<u8>)
        ensures
            v@ == self.encoding(),
    {
        let mut v: Vec<u8> = Vec::new();
        self.encoded_to(&mut v);
        assert(v@ =~= self.encoding());
        v
    }

    /// Decodes the handle that `src` starts with, and returns it with the
    /// number of bytes it took.
    ///
    /// Where `src` does not start with two varints of `u64` numbers, the
    /// result is a `Corruption` error.
    #[inline]
    pub fn decode_from(src: &[u8]) -> (res: Result<(Self, usize), WickErr>)
        ensures
            match res {
                Ok((handle, n)) => Self::decoding(src@) == Some((handle, n as nat)),
                Err(e) => Self::decoding(src@) is None && e@ == corruption("bad block handle"@),
            },
    {
        if let Some((offset, n)) = VarintU64::read(src) {
            proof {
                lemma_span_bounds(src@);
                assert(src@.subrange(n as int, src.len() as int) =~= src@.skip(n as int));
                lemma_span_bounds(src@.skip(n as int));
            }
            if let Some((size, m)) = VarintU64::read(&src[n..src.len()]) {
                Ok((Self::new(offset, size), m + n))
            } else {
                Err(WickErr::new(Status::Corruption, Some("bad block handle")))
            }
        } else {
            Err(WickErr::new(Status::Corruption, Some("bad block handle")))
        }
    }
}

/// Decoding a handle undoes encoding it, whatever follows the handle.
pub proof fn lemma_block_handle_round_trip(handle: BlockHandle, rest: Seq<u8>)
    ensures
        1 <= varint_encoding(handle.offset as nat).len() <= MAX_VARINT_LEN_U64,
        1 <= varint_encoding(handle.size as nat).len() <= MAX_VARINT_LEN_U64,
        BlockHandle::decoding(handle.encoding() + rest) == Some(
            (handle, handle.encoding().len()),
        ),
{
    let first = varint_encoding(handle.offset as nat);
    let second = varint_encoding(handle.size as nat);
    lemma_varint_u64_len(handle.offset);
    lemma_varint_u64_len(handle.size);
    lemma_varint_u64_round_trip(handle.offset, second + rest);
    lemma_varint_u64_round_trip(handle.size, rest);
    assert(handle.encoding() + rest =~= first + (second + rest));
    assert((first + (second + rest)).skip(first.len() as int) =~= second + rest);
}

/// `Footer` holds what is stored at the end of every table file: where the
/// metaindex block and the index block are.
#[derive(Debug)]
pub struct Footer {
    pub meta_index_handle: BlockHandle,
    pub index_handle: BlockHandle,
}

impl Footer {
    /// The bytes that stand for the footer: the two handles, zeros up to the
    /// length kept for the handles, and the magic number.
    pub open spec fn encoding(self) -> Seq<u8> {
        let handles = self.meta_index_handle.encoding() + self.index_handle.encoding();
        let room = 2 * MAX_BLOCK_HANDLE_ENCODE_LENGTH;
        handles + Seq::new((room - handles.len()) as nat, |i: int| 0u8) + fixed64_encoding(
            TABLE_MAGIC_NUMBER,
        )
    }

    /// Whether `s` is long enough for a footer and holds the magic number in
    /// the footer's last eight bytes.
    pub open spec fn has_magic(s: Seq<u8>) -> bool {
        &&& s.len() >= FOOTER_ENCODED_LENGTH
        &&& fixed64_decoding(s.skip(2 * MAX_BLOCK_HANDLE_ENCODE_LENGTH as int))
            == TABLE_MAGIC_NUMBER
    }

    /// The two handles that `s` starts with, and the number of bytes they
    /// take.
    pub open spec fn handles_decoding(s: Seq<u8>) -> Option<(Footer, nat)> {
        match BlockHandle::decoding(s) {
            Some((meta_index_handle, n)) => match BlockHandle::decoding(s.skip(n as int)) {
                Some((index_handle, m)) => Some((Footer { meta_index_handle, index_handle }, n + m)),
                None => None,
            },
            None => None,
        }
    }

    /// The footer that `s` holds, and the number of bytes that its two
    /// handles take. `None` where the magic number is missing or `s` does not
    /// start with two handles.
    pub open spec fn decoding(s: Seq<u8>) -> Option<(Footer, nat)> {
        if Self::has_magic(s) {
            Self::handles_decoding(s)
        } else {
            None
        }
    }

    #[inline]
    pub fn new(meta_index_handle: BlockHandle, index_handle: BlockHandle) -> (footer: Self)
        ensures
            footer == (Footer { meta_index_handle, index_handle }),
    {
        Self { meta_index_handle, index_handle }
    }

    /// Decodes a `Footer` from `src` and returns it with the number of bytes
    /// that its two handles took.
    ///
    /// Where `src` is shorter than a footer or its magic number is not that
    /// of a table, the result is a `Corruption` error that says so. Otherwise,
    /// where `src` does not start with two handles, it is the error of
    /// `BlockHandle::decode_from`.
    pub fn decode_from(src: &[u8]) -> (res: Result<(Self, usize), WickErr>)
        ensures
            match res {
                Ok((footer, n)) => Self::decoding(src@) == Some((footer, n as nat)),
                Err(e) => Self::decoding(src@) is None && e@ == corruption(
                    if Self::has_magic(src@) {
                        "bad block handle"@
                    } else {
                        "not an sstable (bad magic number)"@
                    },
                ),
            },
    {
        if src.len() < FOOTER_ENCODED_LENGTH {
            return Err(
                WickErr::new(Status::Corruption, Some("not an sstable (bad magic number)")),
            );
        }
        let magic: u64 = decode_fixed_64(&src[FOOTER_ENCODED_LENGTH - 8..src.len()]);
        proof {
            assert(src@.subrange(FOOTER_ENCODED_LENGTH - 8, src.len() as int) =~= src@.skip(
                2 * MAX_BLOCK_HANDLE_ENCODE_LENGTH as int,
            ));
        }
        if magic != TABLE_MAGIC_NUMBER {
            return Err(
                WickErr::new(Status::Corruption, Some("not an sstable (bad magic number)")),
            );
        }
        let (meta_index_handle, n) = match BlockHandle::decode_from(src) {
            Ok(found) => found,
            Err(e) => {
                return Err(e);
            },
        };
        proof {
            lemma_handle_bounds(src@);
            assert(src@.subrange(n as int, src.len() as int) =~= src@.skip(n as int));
            lemma_handle_bounds(src@.skip(n as int));
        }
        let (index_handle, m) = match BlockHandle::decode_from(&src[n..src.len()]) {
            Ok(found) => found,
            Err(e) => {
                return Err(e);
            },
        };
        Ok((Self { meta_index_handle, index_handle }, m + n))
    }

    /// Encodes the footer and returns the bytes.
    pub fn encoded(&self) -> (v: Vec<u8>)
        ensures
            v@ == self.encoding(),
            v@.len() == FOOTER_ENCODED_LENGTH,
    {
        let mut v: Vec<u8> = Vec::new();
        self.meta_index_handle.encoded_to(&mut v);
        self.index_handle.encoded_to(&mut v);
        proof {
            lemma_block_handle_round_trip(self.meta_index_handle, Seq::empty());
            lemma_block_handle_round_trip(self.index_handle, Seq::empty());
            lemma_fixed64_round_trip(TABLE_MAGIC_NUMBER, Seq::empty());
        }
        let ghost handles = v@;
        v.resize(2 * MAX_BLOCK_HANDLE_ENCODE_LENGTH, 0);
        assert(v@ =~= handles + Seq::new(
            (2 * MAX_BLOCK_HANDLE_ENCODE_LENGTH - handles.len()) as nat,
            |i: int| 0u8,
        ));
        put_fixed_64(&mut v, TABLE_MAGIC_NUMBER);
        v
    }
}

/// A handle is at least two bytes long and ends within the sequence it is
/// decoded from.
proof fn lemma_handle_bounds(s: Seq<u8>)
    ensures
        BlockHandle::decoding(s) matches Some((_, n)) ==> 2 <= n <= s.len(),
{
    lemma_span_bounds(s);
    if let Some((_, n)) = varint_u64_decoding(s) {
        lemma_span_bounds(s.skip(n as int));
    }
}

/// Decoding a footer undoes encoding it, whatever follows the footer: the
/// result is the footer, with the number of bytes that its two handles take.
pub proof fn lemma_footer_round_trip(footer: Footer, rest: Seq<u8>)
    ensures
        footer.encoding().len() == FOOTER_ENCODED_LENGTH,
        Footer::decoding(footer.encoding() + rest) == Some(
            (
                footer,
                footer.meta_index_handle.encoding().len() + footer.index_handle.encoding().len(),
            ),
        ),
{
    let meta = footer.meta_index_handle.encoding();
    let index = footer.index_handle.encoding();
    let room = 2 * MAX_BLOCK_HANDLE_ENCODE_LENGTH;
    let zeros = Seq::new((room - (meta + index).len()) as nat, |i: int| 0u8);
    let magic = fixed64_encoding(TABLE_MAGIC_NUMBER);
    let s = footer.encoding() + rest;
    lemma_block_handle_round_trip(footer.meta_index_handle, index + zeros + magic + rest);
    lemma_block_handle_round_trip(footer.index_handle, zeros + magic + rest);
    lemma_fixed64_round_trip(TABLE_MAGIC_NUMBER, rest);
    assert(s =~= meta + (index + zeros + magic + rest));
    assert(s.skip(meta.len() as int) =~= index + (zeros + magic + rest));
    assert(s.skip(room as int) =~= magic + rest);
}

/// A sequence as long as a footer has the magic number exactly where its
/// bytes from the fortieth to the forty-eighth are those of the magic number.
pub proof fn lemma_magic_bytes(s: Seq<u8>)
    requires
        s.len() >= FOOTER_ENCODED_LENGTH,
    ensures
        Footer::has_magic(s) <==> s.subrange(
            2 * MAX_BLOCK_HANDLE_ENCODE_LENGTH as int,
            FOOTER_ENCODED_LENGTH as int,
        ) == fixed64_encoding(TABLE_MAGIC_NUMBER),
{
    let room = 2 * MAX_BLOCK_HANDLE_ENCODE_LENGTH as int;
    let tail = s.subrange(room, FOOTER_ENCODED_LENGTH as int);
    let magic = fixed64_encoding(TABLE_MAGIC_NUMBER);
    assert(s.skip(room).take(8) =~= tail);
    assert(Footer::has_magic(s) <==> le_value(tail) == TABLE_MAGIC_NUMBER);
    lemma_le_bytes_of_value(tail);
    lemma_fixed64_round_trip(TABLE_MAGIC_NUMBER, Seq::empty());
    assert((magic + Seq::<u8>::empty()).take(8) =~= magic);
    assert(le_value(magic) == TABLE_MAGIC_NUMBER);
}

/// Changing any one byte of the magic number of an encoded footer leaves
/// bytes that do not decode: `Footer::decode_from` then reports a bad magic
/// number.
pub proof fn lemma_footer_magic_changed(footer: Footer, i: int, b: u8)
    requires
        2 * MAX_BLOCK_HANDLE_ENCODE_LENGTH <= i < FOOTER_ENCODED_LENGTH,
        b != footer.encoding()[i],
    ensures
        !Footer::has_magic(footer.encoding().update(i, b)),
        Footer::decoding(footer.encoding().update(i, b)) is None,
{
    let room = 2 * MAX_BLOCK_HANDLE_ENCODE_LENGTH as int;
    let s = footer.encoding();
    let t = s.update(i, b);
    lemma_footer_round_trip(footer, Seq::empty());
    assert(s + Seq::<u8>::empty() =~= s);
    lemma_magic_bytes(s);
    lemma_magic_bytes(t);
    assert(t.subrange(room, FOOTER_ENCODED_LENGTH as int)[i - room] == b);
    assert(s.subrange(room, FOOTER_ENCODED_LENGTH as int)[i - room] == s[i]);
}

} // verus!
