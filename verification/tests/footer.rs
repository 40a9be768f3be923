use wickdb::sstable::{
    BlockHandle, Footer, BLOCK_TRAILER_SIZE, FOOTER_ENCODED_LENGTH, MAX_BLOCK_HANDLE_ENCODE_LENGTH,
    TABLE_MAGIC_NUMBER,
};
use wickdb::util::status::{Status, WickErr};

#[test]
fn test_footer_corruption() {
    let footer = Footer::new(BlockHandle::new(300, 100), BlockHandle::new(401, 1000));
    let mut encoded = footer.encoded();
    let last = encoded.last_mut().unwrap();
    *last += 1;
    let r1 = Footer::decode_from(&encoded);
    assert!(r1.is_err());
    let e1 = r1.unwrap_err();
    assert_eq!(e1.status(), Status::Corruption);
    assert_eq!(e1.description(), "not an sstable (bad magic number)");
}

#[test]
fn test_encode_decode() {
    let footer = Footer::new(BlockHandle::new(300, 100), BlockHandle::new(401, 1000));
    let encoded = footer.encoded();
    let (footer, _) = Footer::decode_from(&encoded).expect("footer decoding should work");
    assert_eq!(footer.index_handle, BlockHandle::new(401, 1000));
    assert_eq!(footer.meta_index_handle, BlockHandle::new(300, 100));
}

#[test]
fn test_constants() {
    assert_eq!(TABLE_MAGIC_NUMBER, 0xdb4775248b80fb57);
    assert_eq!(BLOCK_TRAILER_SIZE, 5);
    assert_eq!(MAX_BLOCK_HANDLE_ENCODE_LENGTH, 20);
    assert_eq!(FOOTER_ENCODED_LENGTH, 48);
}

#[test]
fn test_footer_exact_bytes() {
    let footer = Footer::new(BlockHandle::new(300, 100), BlockHandle::new(401, 1000));
    let encoded = footer.encoded();
    let mut expected: Vec<u8> = vec![0xac, 0x02, 0x64, 0x91, 0x03, 0xe8, 0x07];
    expected.resize(40, 0);
    expected.extend_from_slice(&[0x57, 0xfb, 0x80, 0x8b, 0x24, 0x75, 0x47, 0xdb]);
    assert_eq!(encoded.len(), 48);
    assert_eq!(encoded, expected);
}

#[test]
fn test_footer_decoded_length_counts_the_handles() {
    let footer = Footer::new(BlockHandle::new(300, 100), BlockHandle::new(401, 1000));
    let encoded = footer.encoded();
    let (_, n) = Footer::decode_from(&encoded).expect("footer decoding should work");
    assert_eq!(n, 7);
}

#[test]
fn test_footer_of_largest_handles() {
    let footer = Footer::new(
        BlockHandle::new(u64::MAX, u64::MAX),
        BlockHandle::new(u64::MAX, u64::MAX - 1),
    );
    let encoded = footer.encoded();
    assert_eq!(encoded.len(), 48);
    let (decoded, n) = Footer::decode_from(&encoded).expect("footer decoding should work");
    assert_eq!(n, 40);
    assert_eq!(decoded.meta_index_handle, BlockHandle::new(u64::MAX, u64::MAX));
    assert_eq!(decoded.index_handle, BlockHandle::new(u64::MAX, u64::MAX - 1));
}

#[test]
fn test_footer_every_magic_byte_matters() {
    let footer = Footer::new(BlockHandle::new(300, 100), BlockHandle::new(401, 1000));
    let encoded = footer.encoded();
    for i in 40..48 {
        for flip in [0x01u8, 0x80, 0xff] {
            let mut damaged = encoded.clone();
            damaged[i] ^= flip;
            let e = Footer::decode_from(&damaged).unwrap_err();
            assert_eq!(e.status(), Status::Corruption);
            assert_eq!(e.description(), "not an sstable (bad magic number)");
        }
    }
}

#[test]
fn test_footer_too_short() {
    let footer = Footer::new(BlockHandle::new(300, 100), BlockHandle::new(401, 1000));
    let encoded = footer.encoded();
    for len in [0usize, 1, 39, 40, 47] {
        let e = Footer::decode_from(&encoded[..len]).unwrap_err();
        assert_eq!(e.status(), Status::Corruption);
        assert_eq!(e.description(), "not an sstable (bad magic number)");
    }
}

#[test]
fn test_footer_ignores_what_follows() {
    let footer = Footer::new(BlockHandle::new(300, 100), BlockHandle::new(401, 1000));
    let mut encoded = footer.encoded();
    encoded.extend_from_slice(&[1, 2, 3]);
    let (decoded, n) = Footer::decode_from(&encoded).expect("footer decoding should work");
    assert_eq!(n, 7);
    assert_eq!(decoded.meta_index_handle, BlockHandle::new(300, 100));
    assert_eq!(decoded.index_handle, BlockHandle::new(401, 1000));
}

#[test]
fn test_footer_bad_handle() {
    // Every byte of the room for the handles has its high bit set, so no
    // varint ends there; the magic number is in place.
    let mut bytes: Vec<u8> = vec![0x80; 40];
    bytes.extend_from_slice(&[0x57, 0xfb, 0x80, 0x8b, 0x24, 0x75, 0x47, 0xdb]);
    let e = Footer::decode_from(&bytes).unwrap_err();
    assert_eq!(e.status(), Status::Corruption);
    assert_eq!(e.description(), "bad block handle");
}

#[test]
fn test_footer_bad_second_handle() {
    let mut bytes: Vec<u8> = vec![0x01, 0x02, 0x03];
    bytes.resize(40, 0xff);
    bytes.extend_from_slice(&[0x57, 0xfb, 0x80, 0x8b, 0x24, 0x75, 0x47, 0xdb]);
    let e = Footer::decode_from(&bytes).unwrap_err();
    assert_eq!(e.status(), Status::Corruption);
    assert_eq!(e.description(), "bad block handle");
}

#[test]
fn test_block_handle_setters() {
    let mut handle = BlockHandle::new(1, 2);
    handle.set_offset(10);
    assert_eq!(handle, BlockHandle::new(10, 2));
    handle.set_size(20);
    assert_eq!(handle, BlockHandle::new(10, 20));
    assert_eq!(handle.offset, 10);
    assert_eq!(handle.size, 20);
}

#[test]
fn test_block_handle_encoded() {
    assert_eq!(BlockHandle::new(0, 0).encoded(), vec![0x00, 0x00]);
    assert_eq!(BlockHandle::new(300, 100).encoded(), vec![0xac, 0x02, 0x64]);
    assert_eq!(BlockHandle::new(401, 1000).encoded(), vec![0x91, 0x03, 0xe8, 0x07]);
    assert_eq!(BlockHandle::new(u64::MAX, 127).encoded().len(), 11);
}

#[test]
fn test_block_handle_encoded_to_appends() {
    let mut dst: Vec<u8> = vec![9, 9];
    BlockHandle::new(300, 100).encoded_to(&mut dst);
    assert_eq!(dst, vec![9, 9, 0xac, 0x02, 0x64]);
}

#[test]
fn test_block_handle_round_trip() {
    let samples: [u64; 9] =
        [0, 1, 127, 128, 300, 16383, 16384, u64::MAX - 1, u64::MAX];
    for &offset in samples.iter() {
        for &size in samples.iter() {
            let handle = BlockHandle::new(offset, size);
            let mut bytes = handle.encoded();
            let len = bytes.len();
            bytes.extend_from_slice(&[0xff, 0x00, 0x7f]);
            let (decoded, n) = BlockHandle::decode_from(&bytes).expect("handle should decode");
            assert_eq!(decoded, handle);
            assert_eq!(n, len);
        }
    }
}

#[test]
fn test_block_handle_decode_errors() {
    let inputs: [&[u8]; 5] = [
        &[],
        &[0x05],
        &[0x80],
        &[0x05, 0x80, 0x80],
        &[0xff, 0xff, 0xff, 0xff, 0xff, 0xff, 0xff, 0xff, 0xff, 0x02, 0x00],
    ];
    for src in inputs.iter() {
        let e = BlockHandle::decode_from(src).unwrap_err();
        assert_eq!(e.status(), Status::Corruption);
        assert_eq!(e.description(), "bad block handle");
    }
}

#[test]
fn test_error_description() {
    let plain = WickErr::new(Status::NotFound, None);
    assert_eq!(plain.status(), Status::NotFound);
    assert_eq!(plain.description(), "NotFound");
    let told = WickErr::new(Status::IOError, Some("short read"));
    assert_eq!(told.status(), Status::IOError);
    assert_eq!(told.description(), "short read");
    assert_eq!(Status::Corruption.as_str(), "Corruption");
    assert_eq!(Status::IOError.as_str(), "IOError");
    assert_eq!(Status::InvalidArgument.as_str(), "InvalidArgument");
    assert_eq!(Status::NotSupported.as_str(), "NotSupported");
}

#[test]
fn test_footer_overwritten() {
    // The last bytes of a file that is no table, or whose end was
    // overwritten.
    for fill in [0x00u8, 0xff, 0x57] {
        let e = Footer::decode_from(&[fill; 48]).unwrap_err();
        assert_eq!(e.status(), Status::Corruption);
        assert_eq!(e.description(), "not an sstable (bad magic number)");
    }
    let text = b"this is the end of a file that holds text only, no table at all";
    let e = Footer::decode_from(&text[text.len() - 48..]).unwrap_err();
    assert_eq!(e.status(), Status::Corruption);
    assert_eq!(e.description(), "not an sstable (bad magic number)");
}

#[test]
fn test_names_at_the_root() {
    let block = wickdb::Block::new(vec![0, 0, 0, 0, 1, 0, 0, 0]).expect("the block should decode");
    assert!(!block.iter(wickdb::util::comparator::BytewiseComparator).valid());
    assert_eq!(wickdb::CompressionType::NoCompression.tag(), 0);
    assert_eq!(wickdb::Status::Corruption, Status::Corruption);
    assert_eq!(wickdb::MAX_VARINT_LEN_U64, 10);
    assert_eq!(wickdb::VarintU64::read(&[0x05]), Some((5, 1)));
}
