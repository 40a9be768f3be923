use wickdb::util::coding::{decode_fixed_32, decode_fixed_64, put_fixed_32, put_fixed_64};
use wickdb::util::varint::{VarintU32, VarintU64, MAX_VARINT_LEN_U32, MAX_VARINT_LEN_U64};

#[test]
fn test_varint_known_encodings() {
    let cases: [(u64, &[u8]); 8] = [
        (0, &[0x00]),
        (1, &[0x01]),
        (127, &[0x7f]),
        (128, &[0x80, 0x01]),
        (300, &[0xac, 0x02]),
        (16383, &[0xff, 0x7f]),
        (16384, &[0x80, 0x80, 0x01]),
        (u64::MAX, &[0xff, 0xff, 0xff, 0xff, 0xff, 0xff, 0xff, 0xff, 0xff, 0x01]),
    ];
    for (n, bytes) in cases.iter() {
        let mut dst: Vec<u8> = Vec::new();
        let written = VarintU64::put_varint(&mut dst, *n);
        assert_eq!(&dst[..], *bytes);
        assert_eq!(written, bytes.len());
        assert_eq!(VarintU64::read(bytes), Some((*n, bytes.len())));
    }
}

#[test]
fn test_varint_put_appends() {
    let mut dst: Vec<u8> = vec![7];
    assert_eq!(VarintU64::put_varint(&mut dst, 300), 2);
    assert_eq!(VarintU64::put_varint(&mut dst, 5), 1);
    assert_eq!(dst, vec![7, 0xac, 0x02, 0x05]);
}

#[test]
fn test_varint_round_trip_powers_of_two() {
    for shift in 0..64 {
        for delta in [0u64, 1] {
            let n = (1u64 << shift).wrapping_sub(delta);
            let mut dst: Vec<u8> = Vec::new();
            let written = VarintU64::put_varint(&mut dst, n);
            assert!(written >= 1 && written <= MAX_VARINT_LEN_U64);
            dst.push(0x55);
            assert_eq!(VarintU64::read(&dst), Some((n, written)));
        }
    }
}

#[test]
fn test_varint_read_stops_at_first_clear_high_bit() {
    assert_eq!(VarintU64::read(&[0x05, 0x06]), Some((5, 1)));
    assert_eq!(VarintU64::read(&[0x80, 0x00]), Some((0, 2)));
    assert_eq!(VarintU64::read(&[0x81, 0x80, 0x00, 0x09]), Some((1, 3)));
}

#[test]
fn test_varint_read_truncated() {
    assert_eq!(VarintU64::read(&[]), None);
    assert_eq!(VarintU64::read(&[0x80]), None);
    assert_eq!(VarintU64::read(&[0xff, 0xff, 0xff]), None);
}

#[test]
fn test_varint_read_too_large() {
    // Ten bytes whose last carries more than the one bit that is left.
    assert_eq!(
        VarintU64::read(&[0xff, 0xff, 0xff, 0xff, 0xff, 0xff, 0xff, 0xff, 0xff, 0x02]),
        None
    );
    assert_eq!(
        VarintU64::read(&[0x80, 0x80, 0x80, 0x80, 0x80, 0x80, 0x80, 0x80, 0x80, 0x7f]),
        None
    );
    // Eleven bytes.
    assert_eq!(
        VarintU64::read(&[0x80, 0x80, 0x80, 0x80, 0x80, 0x80, 0x80, 0x80, 0x80, 0x80, 0x00]),
        None
    );
    // The largest that fits.
    assert_eq!(
        VarintU64::read(&[0x80, 0x80, 0x80, 0x80, 0x80, 0x80, 0x80, 0x80, 0x80, 0x01]),
        Some((1u64 << 63, 10))
    );
}

#[test]
fn test_varint_lengths() {
    assert_eq!(MAX_VARINT_LEN_U32, 5);
    assert_eq!(MAX_VARINT_LEN_U64, 10);
}

#[test]
fn test_fixed_64_known_bytes() {
    let mut dst: Vec<u8> = vec![0xaa];
    put_fixed_64(&mut dst, 0xdb4775248b80fb57);
    assert_eq!(dst, vec![0xaa, 0x57, 0xfb, 0x80, 0x8b, 0x24, 0x75, 0x47, 0xdb]);
    assert_eq!(decode_fixed_64(&dst[1..]), 0xdb4775248b80fb57);
}

#[test]
fn test_fixed_64_round_trip() {
    for n in [0u64, 1, 255, 256, 0x0102030405060708, u64::MAX - 1, u64::MAX] {
        let mut dst: Vec<u8> = Vec::new();
        put_fixed_64(&mut dst, n);
        assert_eq!(dst.len(), 8);
        assert_eq!(dst, n.to_le_bytes().to_vec());
        dst.push(0x99);
        assert_eq!(decode_fixed_64(&dst), n);
    }
}

#[test]
fn test_fixed_64_short_input() {
    assert_eq!(decode_fixed_64(&[]), 0);
    assert_eq!(decode_fixed_64(&[0x01]), 1);
    assert_eq!(decode_fixed_64(&[0x01, 0x02]), 0x0201);
    assert_eq!(decode_fixed_64(&[0xff; 7]), 0x00ff_ffff_ffff_ffff);
}

#[test]
fn test_varint_u32() {
    let cases: [(u32, &[u8]); 5] = [
        (0, &[0x00]),
        (127, &[0x7f]),
        (128, &[0x80, 0x01]),
        (300, &[0xac, 0x02]),
        (u32::MAX, &[0xff, 0xff, 0xff, 0xff, 0x0f]),
    ];
    for (n, bytes) in cases.iter() {
        let mut dst: Vec<u8> = Vec::new();
        assert_eq!(VarintU32::put_varint(&mut dst, *n), bytes.len());
        assert_eq!(&dst[..], *bytes);
        assert_eq!(VarintU32::read(bytes), Some((*n, bytes.len())));
    }
    // Too large for a `u32`, and too long.
    assert_eq!(VarintU32::read(&[0xff, 0xff, 0xff, 0xff, 0x10]), None);
    assert_eq!(VarintU32::read(&[0x80, 0x80, 0x80, 0x80, 0x80, 0x00]), None);
    assert_eq!(VarintU32::read(&[0x80]), None);
}

#[test]
fn test_fixed_32() {
    let mut dst: Vec<u8> = vec![1];
    put_fixed_32(&mut dst, 0x0403_0201);
    assert_eq!(dst, vec![1, 1, 2, 3, 4]);
    assert_eq!(decode_fixed_32(&dst[1..]), 0x0403_0201);
    for n in [0u32, 17, 255, 256, u32::MAX] {
        let mut dst: Vec<u8> = Vec::new();
        put_fixed_32(&mut dst, n);
        assert_eq!(dst, n.to_le_bytes().to_vec());
        dst.push(0xee);
        assert_eq!(decode_fixed_32(&dst), n);
    }
    assert_eq!(decode_fixed_32(&[0x01, 0x02]), 0x0201);
}
