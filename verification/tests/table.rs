use wickdb::options::CompressionType;
use wickdb::sstable::table::{
    checksum_matches, compress_block, open_block, pick_contents, seal_block, unpack_contents,
};
use wickdb::util::crc32::{mask, unmask, MASK_DELTA};
use wickdb::util::status::Status;

fn assert_corruption(res: Result<Vec<u8>, wickdb::util::status::WickErr>, text: &str) {
    match res {
        Ok(_) => panic!("the read should fail"),
        Err(e) => {
            assert_eq!(e.status(), Status::Corruption);
            assert_eq!(e.description(), text);
        }
    }
}

#[test]
fn test_compression_type_tags() {
    assert_eq!(CompressionType::NoCompression.tag(), 0);
    assert_eq!(CompressionType::SnappyCompression.tag(), 1);
    assert_eq!(CompressionType::from_tag(0), Some(CompressionType::NoCompression));
    assert_eq!(CompressionType::from_tag(1), Some(CompressionType::SnappyCompression));
    assert_eq!(CompressionType::from_tag(2), None);
    assert_eq!(CompressionType::from_tag(255), None);
}

#[test]
fn test_mask_known_values() {
    assert_eq!(MASK_DELTA, 0xa282ead8);
    assert_eq!(mask(0), 0xa282ead8);
    assert_eq!(mask(0xffff_ffff), 0xa282ead7);
    assert_eq!(mask(0xe306_9283), 0xc78a_b0e5);
    assert_eq!(unmask(0xc78a_b0e5), 0xe306_9283);
}

#[test]
fn test_mask_round_trip() {
    for crc in [0u32, 1, 0x8000_0000, 0x5edf_f086, 0xdead_beef, u32::MAX] {
        assert_ne!(mask(crc), crc);
        assert_ne!(mask(mask(crc)), crc);
        assert_eq!(unmask(mask(crc)), crc);
        assert_eq!(mask(unmask(crc)), crc);
        assert_eq!(unmask(unmask(mask(mask(crc)))), crc);
    }
}

#[test]
fn test_seal_block_exact_bytes() {
    let sealed = seal_block(b"hello".to_vec(), CompressionType::NoCompression);
    assert_eq!(sealed, vec![b'h', b'e', b'l', b'l', b'o', 0, 151, 168, 143, 131]);
    let sealed = seal_block(b"hello".to_vec(), CompressionType::SnappyCompression);
    assert_eq!(sealed, vec![b'h', b'e', b'l', b'l', b'o', 1, 64, 68, 142, 137]);
    let sealed = seal_block(Vec::new(), CompressionType::NoCompression);
    assert_eq!(sealed, vec![0, 210, 143, 37, 73]);
}

#[test]
fn test_seal_and_open() {
    for contents in [&b""[..], &b"a"[..], &b"hello"[..], &[0u8; 1000][..]] {
        let sealed = seal_block(contents.to_vec(), CompressionType::NoCompression);
        assert_eq!(sealed.len(), contents.len() + 5);
        assert_eq!(open_block(&sealed, true).expect("the block should open"), contents);
        assert_eq!(open_block(&sealed, false).expect("the block should open"), contents);
    }
}

#[test]
fn test_checksum_matches() {
    let sealed = seal_block(b"hello".to_vec(), CompressionType::NoCompression);
    assert!(checksum_matches(&sealed, 0x5edf_f086));
    assert!(!checksum_matches(&sealed, 0x5edf_f087));
    assert!(!checksum_matches(&sealed[..4], 0x5edf_f086));
    assert!(!checksum_matches(&[], 0));
}

#[test]
fn test_open_block_truncated() {
    for len in 0..5 {
        assert_corruption(open_block(&vec![0u8; len], true), "truncated block read");
        assert_corruption(open_block(&vec![0u8; len], false), "truncated block read");
    }
}

#[test]
fn test_open_block_any_changed_byte_is_found() {
    let sealed = seal_block(b"some block contents".to_vec(), CompressionType::NoCompression);
    for i in 0..sealed.len() {
        for flip in [0x01u8, 0x10, 0x80, 0xff] {
            let mut damaged = sealed.clone();
            damaged[i] ^= flip;
            assert_corruption(open_block(&damaged, true), "block checksum mismatch");
        }
    }
}

#[test]
fn test_open_block_without_verifying() {
    let sealed = seal_block(b"hello".to_vec(), CompressionType::NoCompression);
    let mut damaged = sealed.clone();
    damaged[0] = b'j';
    assert_eq!(open_block(&damaged, false).expect("the block should open"), b"jello");
    let mut damaged = sealed.clone();
    damaged[9] ^= 0xff;
    assert_eq!(open_block(&damaged, false).expect("the block should open"), b"hello");
    let mut damaged = sealed.clone();
    damaged[5] = 7;
    assert_corruption(open_block(&damaged, false), "bad block type");
}

#[test]
fn test_open_block_bad_type() {
    // The checksum is right; the compression type is none that is known.
    let mut sealed = b"hello".to_vec();
    sealed.push(2);
    let crc = crc::Crc::<u32>::new(&crc::CRC_32_ISCSI).checksum(&sealed);
    sealed.extend_from_slice(&mask(crc).to_le_bytes());
    assert_corruption(open_block(&sealed, true), "bad block type");
}

#[test]
fn test_open_block_bad_compressed_contents() {
    // Not what Snappy makes of any bytes: a length of five is promised and
    // nothing follows.
    let sealed = seal_block(vec![5], CompressionType::SnappyCompression);
    assert_corruption(open_block(&sealed, true), "corrupted compressed block contents");
    assert_corruption(open_block(&sealed, false), "corrupted compressed block contents");
}

#[test]
fn test_compress_block_keeps_what_is_worth_it() {
    let raw: Vec<u8> = b"abcdefgh".iter().cycle().take(4096).cloned().collect();
    let (contents, how) = compress_block(raw.clone(), CompressionType::SnappyCompression);
    assert_eq!(how, CompressionType::SnappyCompression);
    assert!(contents.len() * 8 < raw.len() * 7);
    assert_ne!(contents, raw);
    let sealed = seal_block(contents, how);
    assert_eq!(open_block(&sealed, true).expect("the block should open"), raw);
}

#[test]
fn test_compress_block_drops_what_is_not_worth_it() {
    // Too short to gain anything.
    let raw = b"abc".to_vec();
    let (contents, how) = compress_block(raw.clone(), CompressionType::SnappyCompression);
    assert_eq!(how, CompressionType::NoCompression);
    assert_eq!(contents, raw);
    let (contents, how) = compress_block(Vec::new(), CompressionType::SnappyCompression);
    assert_eq!(how, CompressionType::NoCompression);
    assert_eq!(contents, Vec::<u8>::new());
}

#[test]
fn test_compress_block_not_asked_for() {
    let raw: Vec<u8> = vec![7; 4096];
    let (contents, how) = compress_block(raw.clone(), CompressionType::NoCompression);
    assert_eq!(how, CompressionType::NoCompression);
    assert_eq!(contents, raw);
}

#[test]
fn test_pick_contents_at_seven_eighths() {
    let raw: Vec<u8> = vec![1; 16];
    // Thirteen of sixteen bytes are less than seven eighths.
    let (contents, how) =
        pick_contents(raw.clone(), CompressionType::SnappyCompression, Some(vec![2; 13]));
    assert_eq!(how, CompressionType::SnappyCompression);
    assert_eq!(contents, vec![2; 13]);
    // Fourteen are seven eighths.
    let (contents, how) =
        pick_contents(raw.clone(), CompressionType::SnappyCompression, Some(vec![2; 14]));
    assert_eq!(how, CompressionType::NoCompression);
    assert_eq!(contents, raw);
    let (contents, how) = pick_contents(raw.clone(), CompressionType::SnappyCompression, None);
    assert_eq!(how, CompressionType::NoCompression);
    assert_eq!(contents, raw);
    let (contents, how) =
        pick_contents(raw.clone(), CompressionType::NoCompression, Some(vec![2; 1]));
    assert_eq!(how, CompressionType::NoCompression);
    assert_eq!(contents, raw);
    // Seven eighths of fifteen bytes are more than thirteen.
    let (_, how) =
        pick_contents(vec![1; 15], CompressionType::SnappyCompression, Some(vec![2; 13]));
    assert_eq!(how, CompressionType::SnappyCompression);
    let (_, how) =
        pick_contents(vec![1; 15], CompressionType::SnappyCompression, Some(vec![2; 14]));
    assert_eq!(how, CompressionType::NoCompression);
}

#[test]
fn test_unpack_contents() {
    assert_eq!(unpack_contents(b"abc", 0, None).expect("the contents should unpack"), b"abc");
    assert_eq!(
        unpack_contents(b"abc", 0, Some(b"xyz".to_vec())).expect("the contents should unpack"),
        b"abc"
    );
    assert_eq!(
        unpack_contents(b"abc", 1, Some(b"xyz".to_vec())).expect("the contents should unpack"),
        b"xyz"
    );
    assert_corruption(unpack_contents(b"abc", 1, None), "corrupted compressed block contents");
    assert_corruption(unpack_contents(b"abc", 2, Some(b"xyz".to_vec())), "bad block type");
}
