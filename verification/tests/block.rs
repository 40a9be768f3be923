use wickdb::sstable::block::builder::BlockBuilder;
use wickdb::sstable::block::reader::Block;
use wickdb::util::comparator::{BytewiseComparator, Comparator, KeyOrder};
use wickdb::util::status::Status;

fn build(entries: &[(&[u8], &[u8])], interval: usize) -> Vec<u8> {
    let mut builder = BlockBuilder::new(interval, BytewiseComparator);
    for (key, value) in entries.iter() {
        builder.add(key, value);
    }
    builder.finish().to_vec()
}

fn read_all(block: &Block) -> Vec<(Vec<u8>, Vec<u8>)> {
    let mut found = Vec::new();
    let mut it = block.iter(BytewiseComparator);
    it.seek_to_first();
    while it.valid() {
        found.push((it.key().to_vec(), it.value().to_vec()));
        it.next();
    }
    found
}

fn owned(entries: &[(&[u8], &[u8])]) -> Vec<(Vec<u8>, Vec<u8>)> {
    entries.iter().map(|(k, v)| (k.to_vec(), v.to_vec())).collect()
}

fn restarts_of(block: &[u8]) -> Vec<u32> {
    let n = block.len();
    let count = u32::from_le_bytes([block[n - 4], block[n - 3], block[n - 2], block[n - 1]]) as usize;
    let at = n - 4 * (count + 1);
    (0..count)
        .map(|j| {
            let p = at + 4 * j;
            u32::from_le_bytes([block[p], block[p + 1], block[p + 2], block[p + 3]])
        })
        .collect()
}

fn assert_bad_block(data: Vec<u8>) {
    match Block::new(data) {
        Ok(_) => panic!("the bytes should not make a block"),
        Err(e) => {
            assert_eq!(e.status(), Status::Corruption);
            assert_eq!(e.description(), "bad block contents");
        }
    }
}

const DECK: [(&[u8], &[u8]); 3] = [(b"deck", b"v1"), (b"dock", b"v2"), (b"duck", b"v3")];

#[test]
fn test_block_exact_bytes() {
    let block = build(&DECK, 2);
    let mut expected: Vec<u8> = Vec::new();
    expected.extend_from_slice(&[0, 4, 2]);
    expected.extend_from_slice(b"deckv1");
    expected.extend_from_slice(&[1, 3, 2]);
    expected.extend_from_slice(b"ockv2");
    expected.extend_from_slice(&[0, 4, 2]);
    expected.extend_from_slice(b"duckv3");
    expected.extend_from_slice(&[0, 0, 0, 0]);
    expected.extend_from_slice(&[17, 0, 0, 0]);
    expected.extend_from_slice(&[2, 0, 0, 0]);
    assert_eq!(block, expected);
}

#[test]
fn test_block_restart_points() {
    let block = build(&DECK, 2);
    assert_eq!(restarts_of(&block), vec![0, 17]);
    assert_eq!(restarts_of(&build(&DECK, 1)), vec![0, 9, 18]);
    assert_eq!(restarts_of(&build(&DECK, 3)), vec![0]);
    assert_eq!(restarts_of(&build(&DECK, 16)), vec![0]);
}

#[test]
fn test_block_seek_between_keys() {
    let block = Block::new(build(&DECK, 2)).expect("the block should decode");
    let mut it = block.iter(BytewiseComparator);
    it.seek(b"do");
    assert!(it.valid());
    assert_eq!(it.key(), b"dock");
    assert_eq!(it.value(), b"v2");
}

#[test]
fn test_block_round_trip() {
    let lists: [&[(&[u8], &[u8])]; 5] = [
        &[],
        &[(b"", b"")],
        &[(b"a", b"1")],
        &DECK,
        &[
            (b"", b"empty key"),
            (b"a", b""),
            (b"a", b"again"),
            (b"ab", b"x"),
            (b"abc", b"y"),
            (b"abd", b"z"),
            (b"b", b"w"),
            (b"ba", b"v"),
        ],
    ];
    for entries in lists.iter() {
        for interval in [1usize, 2, 3, 16] {
            let block = Block::new(build(entries, interval)).expect("the block should decode");
            assert_eq!(read_all(&block), owned(entries));
        }
    }
}

#[test]
fn test_block_round_trip_long_entries() {
    let long_key: Vec<u8> = (0..300).map(|i| (i % 251) as u8).collect();
    let mut longer_key = long_key.clone();
    longer_key.push(7);
    let value: Vec<u8> = vec![0xab; 20000];
    let entries: Vec<(&[u8], &[u8])> = vec![(&long_key, &value), (&longer_key, b"short")];
    for interval in [1usize, 2] {
        let block = Block::new(build(&entries, interval)).expect("the block should decode");
        assert_eq!(read_all(&block), owned(&entries));
    }
}

#[test]
fn test_block_seek_finds_least_key_not_before_target() {
    let keys: Vec<Vec<u8>> = (0..100u32).map(|i| format!("key{:03}", 2 * i).into_bytes()).collect();
    let entries: Vec<(&[u8], &[u8])> = keys.iter().map(|k| (&k[..], &k[3..])).collect();
    for interval in [1usize, 2, 7, 16, 200] {
        let block = Block::new(build(&entries, interval)).expect("the block should decode");
        let mut it = block.iter(BytewiseComparator);
        for t in 0..205u32 {
            let target = format!("key{:03}", t).into_bytes();
            it.seek(&target);
            let expected = keys.iter().find(|k| k[..] >= target[..]);
            match expected {
                Some(k) => {
                    assert!(it.valid());
                    assert_eq!(it.key(), &k[..]);
                    assert_eq!(it.value(), &k[3..]);
                }
                None => assert!(!it.valid()),
            }
        }
        it.seek(b"");
        assert!(it.valid());
        assert_eq!(it.key(), b"key000");
        it.seek(b"zzz");
        assert!(!it.valid());
    }
}

#[test]
fn test_block_seek_with_equal_keys() {
    let entries: [(&[u8], &[u8]); 5] =
        [(b"a", b"1"), (b"b", b"2"), (b"b", b"3"), (b"b", b"4"), (b"c", b"5")];
    for interval in [1usize, 2, 3, 16] {
        let block = Block::new(build(&entries, interval)).expect("the block should decode");
        let mut it = block.iter(BytewiseComparator);
        it.seek(b"b");
        assert!(it.valid());
        assert_eq!(it.key(), b"b");
        assert_eq!(it.value(), b"2");
    }
}

#[test]
fn test_block_iterator_starts_at_no_entry() {
    let block = Block::new(build(&DECK, 2)).expect("the block should decode");
    let it = block.iter(BytewiseComparator);
    assert!(!it.valid());
}

#[test]
fn test_block_iterator_moves_both_ways() {
    for interval in [1usize, 2, 3, 16] {
        let block = Block::new(build(&DECK, interval)).expect("the block should decode");
        let mut it = block.iter(BytewiseComparator);
        it.seek_to_last();
        assert!(it.valid());
        assert_eq!(it.key(), b"duck");
        assert_eq!(it.value(), b"v3");
        it.prev();
        assert!(it.valid());
        assert_eq!(it.key(), b"dock");
        assert_eq!(it.value(), b"v2");
        it.prev();
        assert!(it.valid());
        assert_eq!(it.key(), b"deck");
        assert_eq!(it.value(), b"v1");
        it.next();
        assert_eq!(it.key(), b"dock");
        it.prev();
        assert_eq!(it.key(), b"deck");
        it.prev();
        assert!(!it.valid());
        it.seek_to_first();
        assert!(it.valid());
        assert_eq!(it.key(), b"deck");
        it.next();
        it.next();
        assert_eq!(it.key(), b"duck");
        it.next();
        assert!(!it.valid());
    }
}

#[test]
fn test_block_without_entries() {
    let bytes = build(&[], 16);
    assert_eq!(bytes, vec![0, 0, 0, 0, 1, 0, 0, 0]);
    let block = Block::new(bytes).expect("the block should decode");
    let mut it = block.iter(BytewiseComparator);
    assert!(!it.valid());
    it.seek_to_first();
    assert!(!it.valid());
    it.seek_to_last();
    assert!(!it.valid());
    it.seek(b"a");
    assert!(!it.valid());
}

#[test]
fn test_block_builder_size_and_reset() {
    let mut builder = BlockBuilder::new(2, BytewiseComparator);
    assert!(builder.is_empty());
    assert_eq!(builder.current_size_estimate(), 8);
    builder.add(b"deck", b"v1");
    assert!(!builder.is_empty());
    assert_eq!(builder.current_size_estimate(), 9 + 8);
    builder.add(b"dock", b"v2");
    assert_eq!(builder.current_size_estimate(), 17 + 8);
    builder.add(b"duck", b"v3");
    assert_eq!(builder.current_size_estimate(), 26 + 12);
    assert_eq!(builder.finish().len(), 38);
    builder.reset();
    assert!(builder.is_empty());
    assert_eq!(builder.current_size_estimate(), 8);
    builder.add(b"a", b"1");
    assert_eq!(builder.finish().to_vec(), vec![0, 1, 1, b'a', b'1', 0, 0, 0, 0, 1, 0, 0, 0]);
}

#[test]
fn test_block_too_short() {
    assert_bad_block(vec![]);
    assert_bad_block(vec![1, 0, 0]);
    assert_bad_block(vec![1, 0, 0, 0]);
}

#[test]
fn test_block_bad_restart_count() {
    // No restart point.
    assert_bad_block(vec![0, 0, 0, 0, 0, 0, 0, 0]);
    // More restart points than there is room for.
    assert_bad_block(vec![0, 0, 0, 0, 2, 0, 0, 0]);
    assert_bad_block(vec![0, 0, 0, 0, 0xff, 0xff, 0xff, 0xff]);
    // Two restart points and no entry.
    assert_bad_block(vec![0, 0, 0, 0, 0, 0, 0, 0, 2, 0, 0, 0]);
}

#[test]
fn test_block_truncated_lengths() {
    // The lengths of the one entry never end.
    assert_bad_block(vec![0x80, 0x80, 0x80, 0, 0, 0, 0, 1, 0, 0, 0]);
    // Two lengths only.
    assert_bad_block(vec![0, 1, 0, 0, 0, 0, 1, 0, 0, 0]);
    // A length of six bytes.
    assert_bad_block(vec![0, 0x80, 0x80, 0x80, 0x80, 0x80, 0x00, 0, 0, 0, 0, 0, 1, 0, 0, 0]);
}

#[test]
fn test_block_entry_past_the_end() {
    // The key is said to have five bytes; one is there.
    assert_bad_block(vec![0, 5, 0, b'a', 0, 0, 0, 0, 1, 0, 0, 0]);
    // The value is said to have two bytes; one is there.
    assert_bad_block(vec![0, 1, 2, b'a', b'1', 0, 0, 0, 0, 1, 0, 0, 0]);
}

#[test]
fn test_block_shares_more_than_the_key_before_has() {
    // The first entry shares a byte with nothing.
    assert_bad_block(vec![1, 1, 0, b'a', 0, 0, 0, 0, 1, 0, 0, 0]);
    // The second entry shares two bytes with a key of one.
    assert_bad_block(vec![0, 1, 0, b'a', 2, 1, 0, b'b', 0, 0, 0, 0, 1, 0, 0, 0]);
    // The same with one byte shared is a block.
    let block = Block::new(vec![0, 1, 0, b'a', 1, 1, 0, b'b', 0, 0, 0, 0, 1, 0, 0, 0])
        .expect("the block should decode");
    assert_eq!(
        read_all(&block),
        vec![(b"a".to_vec(), Vec::new()), (b"ab".to_vec(), Vec::new())]
    );
}

#[test]
fn test_block_bad_restart_points() {
    let good = build(&DECK, 2);
    assert!(Block::new(good.clone()).is_ok());
    let n = good.len();
    // The first restart point is not zero.
    let mut bad = good.clone();
    bad[n - 12] = 9;
    assert_bad_block(bad);
    // The second restart point is past the entries.
    let mut bad = good.clone();
    bad[n - 8] = 26;
    assert_bad_block(bad);
    let mut bad = good.clone();
    bad[n - 7] = 1;
    assert_bad_block(bad);
    // It stands inside an entry.
    let mut bad = good.clone();
    bad[n - 8] = 16;
    assert_bad_block(bad);
    // It stands at an entry that leaves out a byte of its key.
    let mut bad = good.clone();
    bad[n - 8] = 9;
    assert_bad_block(bad);
    // It is not more than the one before it.
    let mut bad = good.clone();
    bad[n - 8] = 0;
    assert_bad_block(bad);
}

#[test]
fn test_block_restart_points_need_not_be_regular() {
    // Every entry stores its key whole; the restart points are the first and
    // the third.
    let mut bytes: Vec<u8> = Vec::new();
    bytes.extend_from_slice(&[0, 1, 1, b'a', b'1']);
    bytes.extend_from_slice(&[0, 1, 1, b'b', b'2']);
    bytes.extend_from_slice(&[0, 1, 1, b'c', b'3']);
    bytes.extend_from_slice(&[0, 0, 0, 0, 10, 0, 0, 0, 2, 0, 0, 0]);
    let block = Block::new(bytes).expect("the block should decode");
    let mut it = block.iter(BytewiseComparator);
    it.seek(b"b");
    assert!(it.valid());
    assert_eq!(it.key(), b"b");
    assert_eq!(it.value(), b"2");
    it.seek(b"c");
    assert_eq!(it.key(), b"c");
    it.prev();
    assert_eq!(it.key(), b"b");
}

#[test]
fn test_bytewise_comparator() {
    let order = BytewiseComparator;
    assert_eq!(order.compare(b"", b""), KeyOrder::Equal);
    assert_eq!(order.compare(b"", b"a"), KeyOrder::Less);
    assert_eq!(order.compare(b"a", b""), KeyOrder::Greater);
    assert_eq!(order.compare(b"abc", b"abc"), KeyOrder::Equal);
    assert_eq!(order.compare(b"abc", b"abd"), KeyOrder::Less);
    assert_eq!(order.compare(b"abd", b"abc"), KeyOrder::Greater);
    assert_eq!(order.compare(b"ab", b"abc"), KeyOrder::Less);
    assert_eq!(order.compare(b"abc", b"ab"), KeyOrder::Greater);
    assert_eq!(order.compare(&[0x7f], &[0x80]), KeyOrder::Less);
    assert_eq!(order.compare(&[0xff], &[0x00, 0x01]), KeyOrder::Greater);
    assert_eq!(order.name(), "leveldb.BytewiseComparator");
}
