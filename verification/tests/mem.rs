use wickdb::db::format::{
    InternalKeyComparator, LookupKey, ParsedInternalKey, ValueType, INTERNAL_KEY_TAIL,
    MAX_KEY_SEQUENCE, VALUE_TYPE_FOR_SEEK,
};
use wickdb::mem::{LookupResult, MemTable};
use wickdb::util::comparator::{BytewiseComparator, Comparator, KeyOrder};

fn ikey(user_key: &[u8], seq: u64, value_type: ValueType) -> Vec<u8> {
    ParsedInternalKey::new(user_key.to_vec(), seq, value_type).encode()
}

#[test]
fn test_value_type_tags() {
    assert_eq!(ValueType::Deletion.tag(), 0);
    assert_eq!(ValueType::Value.tag(), 1);
    assert_eq!(ValueType::from_tag(0), Some(ValueType::Deletion));
    assert_eq!(ValueType::from_tag(1), Some(ValueType::Value));
    assert_eq!(ValueType::from_tag(2), None);
    assert_eq!(VALUE_TYPE_FOR_SEEK, ValueType::Value);
    assert_eq!(MAX_KEY_SEQUENCE, (1u64 << 56) - 1);
    assert_eq!(INTERNAL_KEY_TAIL, 8);
}

#[test]
fn test_internal_key_exact_bytes() {
    assert_eq!(
        ikey(b"foo", 0x0102, ValueType::Value),
        vec![b'f', b'o', b'o', 1, 0x02, 0x01, 0, 0, 0, 0, 0]
    );
    assert_eq!(ikey(b"", 1, ValueType::Deletion), vec![0, 1, 0, 0, 0, 0, 0, 0]);
    assert_eq!(
        ikey(b"k", MAX_KEY_SEQUENCE, ValueType::Value),
        vec![b'k', 1, 0xff, 0xff, 0xff, 0xff, 0xff, 0xff, 0xff]
    );
}

#[test]
fn test_internal_key_round_trip() {
    for user_key in [&b""[..], &b"a"[..], &b"hello world"[..], &[0xffu8; 9][..]] {
        for seq in [0u64, 1, 255, 256, 1 << 40, MAX_KEY_SEQUENCE] {
            for value_type in [ValueType::Deletion, ValueType::Value] {
                let parsed = ParsedInternalKey::decode_from(&ikey(user_key, seq, value_type))
                    .expect("the internal key should decode");
                assert_eq!(parsed.user_key, user_key);
                assert_eq!(parsed.seq, seq);
                assert_eq!(parsed.value_type, value_type);
            }
        }
    }
}

#[test]
fn test_internal_key_decode_errors() {
    assert!(ParsedInternalKey::decode_from(b"").is_none());
    assert!(ParsedInternalKey::decode_from(b"1234567").is_none());
    // The kind is none that is known.
    assert!(ParsedInternalKey::decode_from(&[b'a', 2, 0, 0, 0, 0, 0, 0, 0]).is_none());
    assert!(ParsedInternalKey::decode_from(&[0xff; 8]).is_none());
}

#[test]
fn test_internal_key_order() {
    let order = InternalKeyComparator::new(BytewiseComparator);
    // The user keys decide.
    assert_eq!(
        order.compare(&ikey(b"a", 1, ValueType::Value), &ikey(b"b", 9, ValueType::Value)),
        KeyOrder::Less
    );
    assert_eq!(
        order.compare(&ikey(b"b", 1, ValueType::Value), &ikey(b"a", 9, ValueType::Value)),
        KeyOrder::Greater
    );
    assert_eq!(
        order.compare(&ikey(b"a", 9, ValueType::Value), &ikey(b"ab", 9, ValueType::Value)),
        KeyOrder::Less
    );
    // Of one user key the later write comes first.
    assert_eq!(
        order.compare(&ikey(b"a", 2, ValueType::Value), &ikey(b"a", 1, ValueType::Value)),
        KeyOrder::Less
    );
    assert_eq!(
        order.compare(&ikey(b"a", 1, ValueType::Value), &ikey(b"a", 2, ValueType::Deletion)),
        KeyOrder::Greater
    );
    // Of one sequence number the kind with the higher byte.
    assert_eq!(
        order.compare(&ikey(b"a", 1, ValueType::Value), &ikey(b"a", 1, ValueType::Deletion)),
        KeyOrder::Less
    );
    assert_eq!(
        order.compare(&ikey(b"a", 1, ValueType::Value), &ikey(b"a", 1, ValueType::Value)),
        KeyOrder::Equal
    );
    // A user key whose bytes look like a higher sequence number does not
    // mislead the order.
    assert_eq!(
        order.compare(&ikey(b"a\xff", 1, ValueType::Value), &ikey(b"a", 9, ValueType::Value)),
        KeyOrder::Greater
    );
    assert_eq!(order.name(), "leveldb.InternalKeyComparator");
}

#[test]
fn test_lookup_key_parts() {
    let key = LookupKey::new(b"foo", 0x0102);
    assert_eq!(key.user_key(), b"foo");
    assert_eq!(key.internal_key(), &ikey(b"foo", 0x0102, ValueType::Value)[..]);
    let mut mem_key = vec![11u8];
    mem_key.extend_from_slice(&ikey(b"foo", 0x0102, ValueType::Value));
    assert_eq!(key.mem_key(), &mem_key[..]);
    let long = vec![b'x'; 200];
    let key = LookupKey::new(&long, 7);
    assert_eq!(key.user_key(), &long[..]);
    assert_eq!(&key.mem_key()[..2], &[0xd0, 0x01]);
    assert_eq!(key.mem_key().len(), 2 + 200 + 8);
}

#[test]
fn test_memtable_read_after_write() {
    let mut mem = MemTable::new(BytewiseComparator);
    assert!(mem.is_empty());
    assert_eq!(mem.get(&LookupKey::new(b"a", 10)), LookupResult::NotFound);
    mem.add(1, ValueType::Value, b"a", b"1");
    mem.add(2, ValueType::Value, b"b", b"2");
    mem.add(3, ValueType::Value, b"a", b"3");
    assert_eq!(mem.len(), 3);
    assert_eq!(mem.get(&LookupKey::new(b"a", 3)), LookupResult::Found(b"3".to_vec()));
    assert_eq!(mem.get(&LookupKey::new(b"a", MAX_KEY_SEQUENCE)), LookupResult::Found(b"3".to_vec()));
    assert_eq!(mem.get(&LookupKey::new(b"b", 3)), LookupResult::Found(b"2".to_vec()));
    assert_eq!(mem.get(&LookupKey::new(b"c", 3)), LookupResult::NotFound);
    assert_eq!(mem.get(&LookupKey::new(b"", 3)), LookupResult::NotFound);
    assert_eq!(mem.get(&LookupKey::new(b"aa", 3)), LookupResult::NotFound);
    mem.add(4, ValueType::Deletion, b"a", b"");
    assert_eq!(mem.get(&LookupKey::new(b"a", 4)), LookupResult::Deleted);
    assert_eq!(mem.get(&LookupKey::new(b"b", 4)), LookupResult::Found(b"2".to_vec()));
    mem.add(5, ValueType::Value, b"a", b"");
    assert_eq!(mem.get(&LookupKey::new(b"a", 5)), LookupResult::Found(Vec::new()));
}

#[test]
fn test_memtable_read_as_of_a_sequence_number() {
    let mut mem = MemTable::new(BytewiseComparator);
    mem.add(1, ValueType::Value, b"a", b"1");
    mem.add(2, ValueType::Value, b"b", b"2");
    mem.add(3, ValueType::Value, b"a", b"3");
    mem.add(4, ValueType::Deletion, b"a", b"");
    assert_eq!(mem.get(&LookupKey::new(b"a", 0)), LookupResult::NotFound);
    assert_eq!(mem.get(&LookupKey::new(b"a", 1)), LookupResult::Found(b"1".to_vec()));
    assert_eq!(mem.get(&LookupKey::new(b"a", 2)), LookupResult::Found(b"1".to_vec()));
    assert_eq!(mem.get(&LookupKey::new(b"a", 3)), LookupResult::Found(b"3".to_vec()));
    assert_eq!(mem.get(&LookupKey::new(b"a", 4)), LookupResult::Deleted);
    assert_eq!(mem.get(&LookupKey::new(b"b", 1)), LookupResult::NotFound);
    assert_eq!(mem.get(&LookupKey::new(b"b", 2)), LookupResult::Found(b"2".to_vec()));
}

#[test]
fn test_memtable_later_writes_do_not_change_earlier_reads() {
    let mut mem = MemTable::new(BytewiseComparator);
    let keys: Vec<Vec<u8>> = (0..50u32).map(|i| format!("key{:02}", i).into_bytes()).collect();
    let mut seq = 0u64;
    for k in keys.iter() {
        seq += 1;
        mem.add(seq, ValueType::Value, k, b"before");
    }
    let snapshot = seq;
    for (i, k) in keys.iter().enumerate() {
        seq += 1;
        if i % 2 == 0 {
            mem.add(seq, ValueType::Value, k, b"after");
        } else {
            mem.add(seq, ValueType::Deletion, k, b"");
        }
    }
    for (i, k) in keys.iter().enumerate() {
        assert_eq!(mem.get(&LookupKey::new(k, snapshot)), LookupResult::Found(b"before".to_vec()));
        let now = mem.get(&LookupKey::new(k, seq));
        if i % 2 == 0 {
            assert_eq!(now, LookupResult::Found(b"after".to_vec()));
        } else {
            assert_eq!(now, LookupResult::Deleted);
        }
    }
}

#[test]
fn test_memtable_order_of_entries() {
    let mut mem = MemTable::new(BytewiseComparator);
    mem.add(1, ValueType::Value, b"b", b"2");
    mem.add(2, ValueType::Value, b"a", b"1");
    mem.add(3, ValueType::Value, b"c", b"4");
    mem.add(4, ValueType::Value, b"a", b"3");
    mem.add(5, ValueType::Deletion, b"b", b"");
    let expected: Vec<(Vec<u8>, Vec<u8>)> = vec![
        (ikey(b"a", 4, ValueType::Value), b"3".to_vec()),
        (ikey(b"a", 2, ValueType::Value), b"1".to_vec()),
        (ikey(b"b", 5, ValueType::Deletion), Vec::new()),
        (ikey(b"b", 1, ValueType::Value), b"2".to_vec()),
        (ikey(b"c", 3, ValueType::Value), b"4".to_vec()),
    ];
    assert_eq!(mem.len(), expected.len());
    for (i, (key, value)) in expected.iter().enumerate() {
        let (k, v) = mem.entry(i);
        assert_eq!(k, &key[..]);
        assert_eq!(v, &value[..]);
    }
    let order = InternalKeyComparator::new(BytewiseComparator);
    for i in 1..mem.len() {
        assert_eq!(order.compare(mem.entry(i - 1).0, mem.entry(i).0), KeyOrder::Less);
    }
}

fn pairs(list: &[(&[u8], &[u8])]) -> Vec<(Vec<u8>, Vec<u8>)> {
    list.iter().map(|(k, v)| (k.to_vec(), v.to_vec())).collect()
}

#[test]
fn test_memtable_scan_gives_latest_value_of_each_key() {
    let mut mem = MemTable::new(BytewiseComparator);
    assert_eq!(mem.scan(MAX_KEY_SEQUENCE), pairs(&[]));
    mem.add(1, ValueType::Value, b"a", b"1");
    mem.add(2, ValueType::Value, b"b", b"2");
    mem.add(3, ValueType::Value, b"a", b"3");
    assert_eq!(mem.scan(3), pairs(&[(b"a", b"3"), (b"b", b"2")]));
    mem.add(4, ValueType::Deletion, b"a", b"");
    assert_eq!(mem.scan(4), pairs(&[(b"b", b"2")]));
    assert_eq!(mem.scan(MAX_KEY_SEQUENCE), pairs(&[(b"b", b"2")]));
}

#[test]
fn test_memtable_scan_as_of_a_sequence_number() {
    let mut mem = MemTable::new(BytewiseComparator);
    mem.add(1, ValueType::Value, b"a", b"1");
    mem.add(2, ValueType::Value, b"b", b"2");
    mem.add(3, ValueType::Value, b"a", b"3");
    mem.add(4, ValueType::Deletion, b"a", b"");
    mem.add(5, ValueType::Value, b"c", b"5");
    mem.add(6, ValueType::Deletion, b"b", b"");
    mem.add(7, ValueType::Value, b"a", b"7");
    assert_eq!(mem.scan(0), pairs(&[]));
    assert_eq!(mem.scan(1), pairs(&[(b"a", b"1")]));
    assert_eq!(mem.scan(2), pairs(&[(b"a", b"1"), (b"b", b"2")]));
    assert_eq!(mem.scan(3), pairs(&[(b"a", b"3"), (b"b", b"2")]));
    assert_eq!(mem.scan(4), pairs(&[(b"b", b"2")]));
    assert_eq!(mem.scan(5), pairs(&[(b"b", b"2"), (b"c", b"5")]));
    assert_eq!(mem.scan(6), pairs(&[(b"c", b"5")]));
    assert_eq!(mem.scan(7), pairs(&[(b"a", b"7"), (b"c", b"5")]));
}

#[test]
fn test_memtable_scan_agrees_with_get() {
    let mut mem = MemTable::new(BytewiseComparator);
    let mut seq = 0u64;
    for round in 0..4u32 {
        for i in 0..30u32 {
            seq += 1;
            let key = format!("k{:02}", (i * 7 + round * 3) % 30).into_bytes();
            if (i + round) % 3 == 0 {
                mem.add(seq, ValueType::Deletion, &key, b"");
            } else {
                mem.add(seq, ValueType::Value, &key, format!("v{}", seq).as_bytes());
            }
        }
    }
    for snapshot in [0u64, 1, 17, 30, 59, 60, 100, seq] {
        let found = mem.scan(snapshot);
        for w in found.windows(2) {
            assert!(w[0].0 < w[1].0);
        }
        for i in 0..30u32 {
            let key = format!("k{:02}", i).into_bytes();
            let listed = found.iter().find(|(k, _)| *k == key).map(|(_, v)| v.clone());
            match mem.get(&LookupKey::new(&key, snapshot)) {
                LookupResult::Found(v) => assert_eq!(listed, Some(v)),
                _ => assert_eq!(listed, None),
            }
        }
    }
}
