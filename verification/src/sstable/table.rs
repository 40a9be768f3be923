//! Blocks as they stand in a table file.
//!
//! The contents of a block are stored as they are or compressed, and a
//! trailer of five bytes follows them:
//!
//! ```text
//!     +----------+---------------------------+--------------------+
//!     | contents | compression type (1 byte) | checksum (4 bytes) |
//!     +----------+---------------------------+--------------------+
//! ```
//!
//! The checksum is that of the contents and the compression type. It is
//! stored masked, in little-endian byte order.

use crate::options::CompressionType;
use crate::sstable::BLOCK_TRAILER_SIZE;
use crate::util::coding::{
    decode_fixed_32, fixed32_decoding, fixed32_encoding, le_value, lemma_fixed32_round_trip,
    lemma_le_bytes_of_value, lemma_le_value_bound, power, put_fixed_32,
};
use crate::util::crc32::{
    checksum, crc32c_checksum, lemma_mask_round_trip, mask, masked, unmask, unmasked,
};
use crate::util::status::{corruption, Status, WickErr};
use vstd::prelude::*;

verus! {

/// What Snappy makes of `data`. `None` where it cannot compress `data`.
pub uninterp spec fn snappy_compression(data: Seq<u8>) -> Option<Seq<u8>>;

/// The bytes of which Snappy made `data`. `None` where `data` is not what
/// Snappy makes of any bytes.
pub uninterp spec fn snappy_decompression(data: Seq<u8>) -> Option<Seq<u8>>;

/// Compresses `data` with Snappy.
///
/// The body calls `snap::raw::Encoder::compress_vec` on an encoder that is
/// new. The contract claims no more than that the result is the same for the
/// same bytes.
#[verifier::external_body]
pub(crate) fn snappy_compress(data: &[u8]) -> (res: Option<Vec<u8>>)
    ensures
        match res {
            Some(compressed) => snappy_compression(data@) == Some(compressed@),
            None => snappy_compression(data@) is None,
        },
{
    snap::raw::Encoder::new().compress_vec(data).ok()
}

/// Decompresses `data` with Snappy.
///
/// The body calls `snap::raw::Decoder::decompress_vec`. The contract claims
/// no more than that the result is the same for the same bytes.
#[verifier::external_body]
pub(crate) fn snappy_decompress(data: &[u8]) -> (res: Option<Vec<u8>>)
    ensures
        match res {
            Some(raw) => snappy_decompression(data@) == Some(raw@),
            None => snappy_decompression(data@) is None,
        },
{
    snap::raw::Decoder::new().decompress_vec(data).ok()
}

/// The view of bytes that may be missing.
pub open spec fn bytes_of(found: Option<Vec<u8>>) -> Option<Seq<u8>> {
    match found {
        Some(bytes) => Some(bytes@),
        None => None,
    }
}

/// The contents that are stored for the block `raw`, and how: compressed
/// where compression is asked for and the compressed form is there and
/// shorter than seven eighths of `raw`, else as they are.
pub open spec fn contents_to_store(
    raw: Seq<u8>,
    compression: CompressionType,
    compressed: Option<Seq<u8>>,
) -> (Seq<u8>, CompressionType) {
    match (compression, compressed) {
        (CompressionType::SnappyCompression, Some(short)) => if 8 * short.len() < 7 * raw.len() {
            (short, CompressionType::SnappyCompression)
        } else {
            (raw, CompressionType::NoCompression)
        },
        _ => (raw, CompressionType::NoCompression),
    }
}

/// The trailer of a block with the contents `contents` and the compression
/// type `tag`.
pub open spec fn trailer_of(contents: Seq<u8>, tag: u8) -> Seq<u8> {
    seq![tag] + fixed32_encoding(masked(crc32c_checksum(contents.push(tag))))
}

/// A block as it stands in a file: its contents and its trailer.
pub open spec fn sealed_block(contents: Seq<u8>, tag: u8) -> Seq<u8> {
    contents + trailer_of(contents, tag)
}

/// The checksum that the trailer of `sealed` holds, unmasked.
pub open spec fn stored_checksum(sealed: Seq<u8>) -> u32 {
    unmasked(fixed32_decoding(sealed.skip(sealed.len() - 4)) as u32)
}

/// The block that is read from the contents of a stored block and its
/// compression type, or the message of the error: the contents, or what they
/// were compressed of.
pub open spec fn contents_unpacking(contents: Seq<u8>, tag: u8, decompressed: Option<Seq<u8>>) -> Result<
    Seq<u8>,
    Seq<char>,
> {
    match CompressionType::of_tag(tag) {
        Some(CompressionType::NoCompression) => Ok(contents),
        Some(CompressionType::SnappyCompression) => match decompressed {
            Some(raw) => Ok(raw),
            None => Err("corrupted compressed block contents"@),
        },
        None => Err("bad block type"@),
    }
}

/// The block that is read from `sealed`, contents and trailer as they stand
/// in a file, or the message of the error. The checksum is compared only
/// where `verify_checksums` says so.
pub open spec fn block_opening(sealed: Seq<u8>, verify_checksums: bool) -> Result<
    Seq<u8>,
    Seq<char>,
> {
    if sealed.len() < BLOCK_TRAILER_SIZE {
        Err("truncated block read"@)
    } else {
        let n = sealed.len() - BLOCK_TRAILER_SIZE;
        if verify_checksums && stored_checksum(sealed) != crc32c_checksum(sealed.take(n + 1)) {
            Err("block checksum mismatch"@)
        } else {
            contents_unpacking(sealed.take(n), sealed[n], snappy_decompression(sealed.take(n)))
        }
    }
}

/// Chooses between the block `raw` and its compressed form `compressed`:
/// returns what is to be stored, and how.
pub fn pick_contents(raw: Vec<u8>, compression: CompressionType, compressed: Option<Vec<u8>>) -> (res:
    (Vec<u8>, CompressionType))
    ensures
        (res.0@, res.1) == contents_to_store(raw@, compression, bytes_of(compressed)),
{
    match compression {
        CompressionType::NoCompression => (raw, CompressionType::NoCompression),
        CompressionType::SnappyCompression => match compressed {
            Some(short) => {
                if (short.len() as u128) * 8 < (raw.len() as u128) * 7 {
                    (short, CompressionType::SnappyCompression)
                } else {
                    (raw, CompressionType::NoCompression)
                }
            },
            None => (raw, CompressionType::NoCompression),
        },
    }
}

/// Compresses the block `raw` where `compression` asks for it and it is
/// worth it: returns what is to be stored, and how.
pub fn compress_block(raw: Vec<u8>, compression: CompressionType) -> (res: (Vec<u8>, CompressionType))
    ensures
        (res.0@, res.1) == contents_to_store(raw@, compression, snappy_compression(raw@)),
{
    match compression {
        CompressionType::NoCompression => (raw, CompressionType::NoCompression),
        CompressionType::SnappyCompression => {
            let compressed = snappy_compress(raw.as_slice());
            pick_contents(raw, compression, compressed)
        },
    }
}

/// Adds to `contents` the trailer of a block: the compression type, and the
/// masked checksum of the contents and the compression type.
pub fn seal_block(contents: Vec<u8>, compression: CompressionType) -> (sealed: Vec<u8>)
    ensures
        sealed@ == sealed_block(contents@, compression.tag_of()),
{
    let mut sealed: Vec<u8> = contents;
    sealed.push(compression.tag());
    let crc: u32 = checksum(sealed.as_slice());
    put_fixed_32(&mut sealed, mask(crc));
    assert(sealed@ =~= sealed_block(contents@, compression.tag_of()));
    sealed
}

/// Whether the checksum that the trailer of `sealed` holds is `actual`.
/// Where `sealed` is shorter than a trailer, it is not.
pub fn checksum_matches(sealed: &[u8], actual: u32) -> (ok: bool)
    ensures
        ok == (sealed@.len() >= BLOCK_TRAILER_SIZE && stored_checksum(sealed@) == actual),
{
    let len: usize = sealed.len();
    if len < BLOCK_TRAILER_SIZE {
        return false;
    }
    proof {
        assert(sealed@.subrange(len - 4, len as int) =~= sealed@.skip(len - 4));
    }
    unmask(decode_fixed_32(&sealed[len - 4..len])) == actual
}

/// Makes the block of the contents of a stored block: a copy of them, or
/// `decompressed`, what they were compressed of.
///
/// Where `tag` stands for no compression type, or the contents are
/// compressed and `decompressed` is missing, the result is a `Corruption`
/// error.
pub fn unpack_contents(contents: &[u8], tag: u8, decompressed: Option<Vec<u8>>) -> (res: Result<
    Vec<u8>,
    WickErr,
>)
    ensures
        match contents_unpacking(contents@, tag, bytes_of(decompressed)) {
            Ok(raw) => res matches Ok(block) && block@ == raw,
            Err(text) => res matches Err(e) && e@ == corruption(text),
        },
{
    match CompressionType::from_tag(tag) {
        Some(CompressionType::NoCompression) => {
            let mut block: Vec<u8> = Vec::new();
            block.extend_from_slice(contents);
            assert(block@ =~= contents@);
            Ok(block)
        },
        Some(CompressionType::SnappyCompression) => match decompressed {
            Some(raw) => Ok(raw),
            None => Err(
                WickErr::new(Status::Corruption, Some("corrupted compressed block contents")),
            ),
        },
        None => Err(WickErr::new(Status::Corruption, Some("bad block type"))),
    }
}

/// Reads a block from `sealed`, its contents and its trailer as they stand
/// in a file.
///
/// The result is a `Corruption` error where `sealed` is shorter than a
/// trailer; where `verify_checksums` is set and the checksum of the trailer
/// is not that of the contents and the compression type; where the
/// compression type is none that is known; and where the contents are
/// compressed and do not decompress.
pub fn open_block(sealed: &[u8], verify_checksums: bool) -> (res: Result<Vec<u8>, WickErr>)
    ensures
        match block_opening(sealed@, verify_checksums) {
            Ok(raw) => res matches Ok(block) && block@ == raw,
            Err(text) => res matches Err(e) && e@ == corruption(text),
        },
{
    let len: usize = sealed.len();
    if len < BLOCK_TRAILER_SIZE {
        return Err(WickErr::new(Status::Corruption, Some("truncated block read")));
    }
    let n: usize = len - BLOCK_TRAILER_SIZE;
    proof {
        assert(sealed@.subrange(0, n + 1) =~= sealed@.take(n + 1));
        assert(sealed@.subrange(0, n as int) =~= sealed@.take(n as int));
    }
    if verify_checksums {
        let actual: u32 = checksum(&sealed[0..n + 1]);
        if !checksum_matches(sealed, actual) {
            return Err(WickErr::new(Status::Corruption, Some("block checksum mismatch")));
        }
    }
    let contents: &[u8] = &sealed[0..n];
    let tag: u8 = sealed[n];
    let decompressed: Option<Vec<u8>> = match CompressionType::from_tag(tag) {
        Some(CompressionType::SnappyCompression) => snappy_decompress(contents),
        _ => None,
    };
    unpack_contents(contents, tag, decompressed)
}

/// Reading a sealed block back gives its contents, or what they were
/// compressed of, whether or not the checksum is compared.
pub proof fn lemma_sealed_block_opens(
    contents: Seq<u8>,
    compression: CompressionType,
    verify_checksums: bool,
)
    ensures
        block_opening(sealed_block(contents, compression.tag_of()), verify_checksums)
            == contents_unpacking(contents, compression.tag_of(), snappy_decompression(contents)),
{
    let tag = compression.tag_of();
    let crc = crc32c_checksum(contents.push(tag));
    let sealed = sealed_block(contents, tag);
    let n = contents.len() as int;
    lemma_fixed32_round_trip(masked(crc), Seq::empty());
    lemma_mask_round_trip(crc);
    assert(sealed.skip(sealed.len() - 4) =~= fixed32_encoding(masked(crc)) + Seq::<u8>::empty());
    assert(sealed.take(n + 1) =~= contents.push(tag));
    assert(sealed.take(n) =~= contents);
    assert(sealed[n] == tag);
}

/// Changing any one of the four bytes of the checksum of a sealed block
/// leaves bytes that do not pass for a block where the checksum is compared:
/// reading them reports a checksum mismatch.
pub proof fn lemma_checksum_byte_changed(contents: Seq<u8>, tag: u8, i: int, b: u8)
    requires
        contents.len() + 1 <= i < contents.len() + BLOCK_TRAILER_SIZE,
        b != sealed_block(contents, tag)[i],
    ensures
        block_opening(sealed_block(contents, tag).update(i, b), true) == Err::<Seq<u8>, Seq<char>>(
            "block checksum mismatch"@,
        ),
{
    let crc = crc32c_checksum(contents.push(tag));
    let sealed = sealed_block(contents, tag);
    let changed = sealed.update(i, b);
    let n = contents.len() as int;
    let held = fixed32_encoding(masked(crc));
    let found = changed.skip(changed.len() - 4);
    lemma_fixed32_round_trip(masked(crc), Seq::empty());
    assert(sealed.skip(sealed.len() - 4) =~= held);
    assert(held + Seq::<u8>::empty() =~= held);
    assert(found =~= held.update(i - n - 1, b));
    assert(found.take(4) =~= found);
    assert(held.take(4) =~= held);
    assert(changed.take(n + 1) =~= contents.push(tag));
    // Four bytes that stand for one number are the same four bytes.
    lemma_le_bytes_of_value(found);
    lemma_le_bytes_of_value(held);
    assert(found[i - n - 1] != held[i - n - 1]);
    assert(le_value(found) != le_value(held));
    lemma_mask_round_trip(fixed32_decoding(found) as u32);
    lemma_mask_round_trip(crc);
    assert(le_value(found) < 0x1_0000_0000) by {
        lemma_le_value_bound(found);
        reveal_with_fuel(power, 5);
    }
}

} // verus!
