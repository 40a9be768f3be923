//! The memtable: the writes that have not yet been written to a table, in
//! the order of their internal keys.
//!
//! A write is never changed or taken away again. Taking a key away is a
//! write of its own, of the kind `Deletion`. A read as of a sequence number
//! sees, of the writes to its key, the latest that is not later than that
//! number.

pub mod model;

use crate::db::format::{
    internal_key_encoding, is_internal_key, kind_of, lemma_internal_key_parts, packed,
    sequence_of, tail_of, tail_part, user_key_of, user_part, InternalKeyComparator, LookupKey,
    ParsedInternalKey, ValueType, MAX_KEY_SEQUENCE, VALUE_TYPE_FOR_SEEK,
};
use crate::mem::model::{
    lemma_before_transitive, lemma_first_not_before, lemma_in_order_at,
    lemma_insert_keeps_order, lemma_later_write_is_not_seen, lemma_latest_write_is_seen,
    lemma_scan_passes, lemma_scan_starts, lemma_scan_takes, lemma_seen_is_one,
    lemma_seen_is_visible, live_pairs, probe, same_key, scanned, seen, visible, write_before,
    writes_in_order, Write,
};
use crate::util::comparator::{Comparator, KeyOrder};
use vstd::prelude::*;

verus! {

/// What a read finds in a memtable.
#[derive(Debug, PartialEq, Eq)]
pub enum LookupResult {
    /// The value that the key was given last.
    Found(Vec<u8>),
    /// The key was taken away last.
    Deleted,
    /// The memtable holds no write to the key that the read may see.
    NotFound,
}

/// Whether `res` is what a read of `user_key` as of `snapshot` finds among
/// `writes`: the value of the write that the read sees, or that this write
/// takes the key away, or that there is no write that the read may see.
pub open spec fn is_lookup<C: Comparator>(
    user: C,
    writes: Seq<Write>,
    user_key: Seq<u8>,
    snapshot: u64,
    res: LookupResult,
) -> bool {
    match res {
        LookupResult::Found(value) => exists|i: int|
            #[trigger] seen(user, writes, i, user_key, snapshot) && writes[i].kind
                == ValueType::Value && writes[i].value == value@,
        LookupResult::Deleted => exists|i: int|
            #[trigger] seen(user, writes, i, user_key, snapshot) && writes[i].kind
                == ValueType::Deletion,
        LookupResult::NotFound => forall|i: int|
            0 <= i < writes.len() ==> !visible(user, #[trigger] writes[i], user_key, snapshot),
    }
}

/// A read that follows a write to its key finds what was written: the value,
/// where the key was given one, and else that the key was taken away. The
/// read must be as of a sequence number that is not earlier than the write,
/// and the write must be later than all writes before it, whose sequence
/// numbers must all differ.
pub proof fn lemma_read_after_write<C: Comparator>(
    user: C,
    writes: Seq<Write>,
    p: int,
    w: Write,
    snapshot: u64,
    res: LookupResult,
)
    requires
        0 <= p <= writes.len(),
        forall|i: int| 0 <= i < writes.len() ==> (#[trigger] writes[i]).seq < w.seq,
        forall|a: int, b: int|
            0 <= a < b < writes.len() ==> (#[trigger] writes[a]).seq != (#[trigger] writes[b]).seq,
        w.seq <= snapshot,
        is_lookup(user, writes.insert(p, w), w.user_key, snapshot, res),
    ensures
        match w.kind {
            ValueType::Value => res matches LookupResult::Found(value) && value@ == w.value,
            ValueType::Deletion => res is Deleted,
        },
{
    let after = writes.insert(p, w);
    lemma_latest_write_is_seen(user, writes, p, w, snapshot);
    assert forall|a: int, b: int| 0 <= a < b < after.len() implies (#[trigger] after[a]).seq != (
    #[trigger] after[b]).seq by {
        if a < p {
            assert(after[a] == writes[a]);
        } else if a > p {
            assert(after[a] == writes[a - 1]);
        }
        if b < p {
            assert(after[b] == writes[b]);
        } else if b > p {
            assert(after[b] == writes[b - 1]);
        }
    }
    match res {
        LookupResult::Found(value) => {
            let i = choose|i: int|
                #[trigger] seen(user, after, i, w.user_key, snapshot) && after[i].kind
                    == ValueType::Value && after[i].value == value@;
            lemma_seen_is_one(user, after, i, p, w.user_key, snapshot);
        },
        LookupResult::Deleted => {
            let i = choose|i: int|
                #[trigger] seen(user, after, i, w.user_key, snapshot) && after[i].kind
                    == ValueType::Deletion;
            lemma_seen_is_one(user, after, i, p, w.user_key, snapshot);
        },
        LookupResult::NotFound => {
            lemma_seen_is_visible(user, after, p, w.user_key, snapshot);
        },
    }
}

/// A read as of a sequence number finds what it found before a later write
/// was added.
pub proof fn lemma_read_as_of_snapshot<C: Comparator>(
    user: C,
    writes: Seq<Write>,
    p: int,
    w: Write,
    user_key: Seq<u8>,
    snapshot: u64,
    res: LookupResult,
)
    requires
        0 <= p <= writes.len(),
        snapshot < w.seq,
    ensures
        is_lookup(user, writes.insert(p, w), user_key, snapshot, res) == is_lookup(
            user,
            writes,
            user_key,
            snapshot,
            res,
        ),
{
    let after = writes.insert(p, w);
    lemma_later_write_is_not_seen(user, writes, p, w, user_key, snapshot);
    let shift = |i: int|
        if i < p {
            i
        } else {
            i + 1
        };
    let back = |i: int|
        if i < p {
            i
        } else {
            i - 1
        };
    assert forall|i: int| seen(user, writes, i, user_key, snapshot) implies 0 <= i < writes.len()
        && #[trigger] after[shift(i)] == writes[i] by {
        lemma_seen_is_visible(user, writes, i, user_key, snapshot);
    }
    assert forall|i: int| seen(user, after, i, user_key, snapshot) implies i != p && seen(
        user,
        writes,
        back(i),
        user_key,
        snapshot,
    ) && #[trigger] after[i] == writes[back(i)] by {
        lemma_seen_is_visible(user, after, i, user_key, snapshot);
        assert(shift(back(i)) == i);
    }
    match res {
        LookupResult::Found(value) => {
            if is_lookup(user, writes, user_key, snapshot, res) {
                let i = choose|i: int|
                    #[trigger] seen(user, writes, i, user_key, snapshot) && writes[i].kind
                        == ValueType::Value && writes[i].value == value@;
                assert(seen(user, after, shift(i), user_key, snapshot));
                assert(after[shift(i)] == writes[i]);
            }
            if is_lookup(user, after, user_key, snapshot, res) {
                let i = choose|i: int|
                    #[trigger] seen(user, after, i, user_key, snapshot) && after[i].kind
                        == ValueType::Value && after[i].value == value@;
                assert(seen(user, writes, back(i), user_key, snapshot));
                assert(after[i] == writes[back(i)]);
            }
        },
        LookupResult::Deleted => {
            if is_lookup(user, writes, user_key, snapshot, res) {
                let i = choose|i: int|
                    #[trigger] seen(user, writes, i, user_key, snapshot) && writes[i].kind
                        == ValueType::Deletion;
                assert(seen(user, after, shift(i), user_key, snapshot));
                assert(after[shift(i)] == writes[i]);
            }
            if is_lookup(user, after, user_key, snapshot, res) {
                let i = choose|i: int|
                    #[trigger] seen(user, after, i, user_key, snapshot) && after[i].kind
                        == ValueType::Deletion;
                assert(seen(user, writes, back(i), user_key, snapshot));
                assert(after[i] == writes[back(i)]);
            }
        },
        LookupResult::NotFound => {},
    }
}

/// A write as the memtable holds it: its internal key and its value.
struct MemEntry {
    key: Vec<u8>,
    value: Vec<u8>,
}

/// The write that an internal key and a value stand for.
spec fn write_of(key: Seq<u8>, value: Seq<u8>) -> Write {
    Write {
        user_key: user_key_of(key),
        seq: sequence_of(key) as u64,
        kind: kind_of(key).unwrap(),
        value,
    }
}

/// Whether `key` is the internal key of a write with a sequence number that
/// seven bytes hold.
spec fn is_stored_key(key: Seq<u8>) -> bool {
    is_internal_key(key) && sequence_of(key) <= MAX_KEY_SEQUENCE && key == internal_key_encoding(
        user_key_of(key),
        sequence_of(key) as u64,
        kind_of(key).unwrap(),
    )
}

/// The order of internal keys is that of the writes they stand for.
proof fn lemma_write_before<C: Comparator>(user: C, a: Seq<u8>, b: Seq<u8>)
    requires
        is_stored_key(a),
        is_stored_key(b),
    ensures
        write_before(user, write_of(a, Seq::empty()), write_of(b, Seq::empty())) == !(
        InternalKeyComparator { user_comparator: user }).le(b, a),
        tail_of(a) == packed(sequence_of(a) as u64, kind_of(a).unwrap()),
        tail_of(b) == packed(sequence_of(b) as u64, kind_of(b).unwrap()),
{
    lemma_internal_key_parts(user_key_of(a), sequence_of(a) as u64, kind_of(a).unwrap());
    lemma_internal_key_parts(user_key_of(b), sequence_of(b) as u64, kind_of(b).unwrap());
    user.lemma_total(user_key_of(a), user_key_of(b));
}

/// The views of pairs of keys and values.
pub open spec fn pairs_view(found: Seq<(Vec<u8>, Vec<u8>)>) -> Seq<(Seq<u8>, Seq<u8>)> {
    Seq::new(found.len(), |k: int| (found[k].0@, found[k].1@))
}

/// The writes that the entries of a memtable stand for.
spec fn writes_of(entries: Seq<MemEntry>) -> Seq<Write> {
    Seq::new(entries.len(), |i: int| write_of(entries[i].key@, entries[i].value@))
}

/// What holds of the entries of a memtable whose latest write has the
/// sequence number `last_seq`.
spec fn entries_wf<C: Comparator>(user: C, entries: Seq<MemEntry>, last_seq: u64) -> bool {
    let writes = writes_of(entries);
    &&& last_seq <= MAX_KEY_SEQUENCE
    &&& forall|i: int| 0 <= i < entries.len() ==> is_stored_key((#[trigger] entries[i]).key@)
    &&& writes_in_order(user, writes)
    &&& forall|i: int| 0 <= i < writes.len() ==> (#[trigger] writes[i]).seq <= last_seq
    &&& forall|i: int, j: int|
        0 <= i < j < writes.len() ==> (#[trigger] writes[i]).seq != (#[trigger] writes[j]).seq
}

/// The entries of a memtable stay what they should be when a later write is
/// put after the writes that come before it.
#[verifier::rlimit(40)]
proof fn lemma_insert_entry<C: Comparator>(
    user: C,
    entries: Seq<MemEntry>,
    last_seq: u64,
    p: int,
    e: MemEntry,
)
    requires
        entries_wf(user, entries, last_seq),
        0 <= p <= entries.len(),
        is_stored_key(e.key@),
        last_seq < sequence_of(e.key@) <= MAX_KEY_SEQUENCE,
        forall|i: int|
            0 <= i < p ==> write_before(
                user,
                #[trigger] writes_of(entries)[i],
                write_of(e.key@, Seq::empty()),
            ),
        p < entries.len() ==> !write_before(
            user,
            writes_of(entries)[p],
            write_of(e.key@, Seq::empty()),
        ),
    ensures
        entries_wf(user, entries.insert(p, e), sequence_of(e.key@) as u64),
        writes_of(entries.insert(p, e)) == writes_of(entries).insert(p, write_of(e.key@, e.value@)),
{
    let before = writes_of(entries);
    let w = write_of(e.key@, e.value@);
    let probe = write_of(e.key@, Seq::empty());
    let grown = entries.insert(p, e);
    let after = writes_of(grown);
    assert forall|i: int| 0 <= i < grown.len() implies after[i] == before.insert(p, w)[i] by {
        if i < p {
            assert(grown[i] == entries[i]);
        } else if i > p {
            assert(grown[i] == entries[i - 1]);
        }
    }
    assert(after =~= before.insert(p, w));
    assert forall|i: int| 0 <= i < p implies write_before(user, #[trigger] before[i], w) by {
        assert(write_before(user, before[i], probe));
    }
    if p < entries.len() {
        user.lemma_total(w.user_key, before[p].user_key);
        assert(before[p].seq <= last_seq);
        assert(write_before(user, w, before[p]));
    }
    lemma_insert_keeps_order(user, before, p, w);
    assert forall|i: int| 0 <= i < grown.len() implies is_stored_key((#[trigger] grown[i]).key@) by {
        if i < p {
            assert(grown[i] == entries[i]);
        } else if i > p {
            assert(grown[i] == entries[i - 1]);
        }
    }
    assert forall|i: int| 0 <= i < after.len() implies (#[trigger] after[i]).seq <= w.seq by {
        if i < p {
            assert(after[i] == before[i]);
        } else if i > p {
            assert(after[i] == before[i - 1]);
        }
    }
    assert forall|i: int, j: int| 0 <= i < j < after.len() implies (#[trigger] after[i]).seq != (
    #[trigger] after[j]).seq by {
        if i < p {
            assert(after[i] == before[i]);
        } else if i > p {
            assert(after[i] == before[i - 1]);
        }
        if j < p {
            assert(after[j] == before[j]);
        } else if j > p {
            assert(after[j] == before[j - 1]);
        }
    }
}

/// The writes that have not yet been written to a table.
pub struct MemTable<C: Comparator> {
    order: InternalKeyComparator<C>,
    entries: Vec<MemEntry>,
    last_seq: u64,
}

impl<C: Comparator> View for MemTable<C> {
    type V = Seq<Write>;

    /// The writes, in the order of the memtable.
    closed spec fn view(&self) -> Seq<Write> {
        writes_of(self.entries@)
    }
}

impl<C: Comparator> MemTable<C> {
    /// The order of the user keys.
    pub closed spec fn comparator(&self) -> C {
        self.order.user_comparator
    }

    /// The sequence number of the latest write; zero before the first.
    pub closed spec fn last_sequence(&self) -> u64 {
        self.last_seq
    }

    /// What holds of every memtable: its writes are in order, and none is
    /// later than the latest.
    pub closed spec fn wf(&self) -> bool {
        entries_wf(self.order.user_comparator, self.entries@, self.last_seq)
    }

    /// The writes of a memtable are in order, none of them is later than the
    /// latest, and no two have one sequence number.
    pub proof fn lemma_in_order(&self)
        requires
            self.wf(),
        ensures
            writes_in_order(self.comparator(), self@),
            forall|i: int| 0 <= i < self@.len() ==> (#[trigger] self@[i]).seq <= self.last_sequence(),
            forall|i: int, j: int|
                0 <= i < j < self@.len() ==> (#[trigger] self@[i]).seq != (#[trigger] self@[j]).seq,
    {
    }

    /// A memtable without writes.
    pub fn new(user_comparator: C) -> (mem: Self)
        ensures
            mem.wf(),
            mem@ == Seq::<Write>::empty(),
            mem.comparator() == user_comparator,
            mem.last_sequence() == 0,
    {
        let mem = Self {
            order: InternalKeyComparator::new(user_comparator),
            entries: Vec::new(),
            last_seq: 0,
        };
        proof {
            lemma_scan_starts(user_comparator, Seq::empty(), 0);
            assert(mem@ =~= Seq::<Write>::empty());
        }
        mem
    }

    /// The number of writes.
    pub fn len(&self) -> (n: usize)
        ensures
            n == self@.len(),
    {
        self.entries.len()
    }

    /// Whether there is no write.
    pub fn is_empty(&self) -> (empty: bool)
        ensures
            empty == (self@.len() == 0),
    {
        self.entries.len() == 0
    }

    /// The internal key and the value of the write of index `i`.
    pub fn entry(&self, i: usize) -> (found: (&[u8], &[u8]))
        requires
            self.wf(),
            i < self@.len(),
        ensures
            found.0@ == internal_key_encoding(self@[i as int].user_key, self@[i as int].seq, self@[i as int].kind),
            found.1@ == self@[i as int].value,
            self@[i as int].seq <= MAX_KEY_SEQUENCE,
    {
        let e: &MemEntry = &self.entries[i];
        (e.key.as_slice(), e.value.as_slice())
    }

    /// Whether the write of index `i` comes before a write with the internal
    /// key `key`.
    fn entry_before(&self, i: usize, key: &[u8]) -> (before: bool)
        requires
            self.wf(),
            i < self.entries@.len(),
            is_stored_key(key@),
        ensures
            before == write_before(
                self.order.user_comparator,
                self@[i as int],
                write_of(key@, Seq::empty()),
            ),
    {
        proof {
            lemma_write_before(self.order.user_comparator, self.entries@[i as int].key@, key@);
        }
        match self.order.compare(self.entries[i].key.as_slice(), key) {
            KeyOrder::Less => true,
            _ => false,
        }
    }

    /// Adds a write, later than all writes before it.
    #[verifier::rlimit(40)]
    pub fn add(&mut self, seq: u64, value_type: ValueType, user_key: &[u8], value: &[u8])
        requires
            old(self).wf(),
            old(self).last_sequence() < seq <= MAX_KEY_SEQUENCE,
        ensures
            final(self).wf(),
            final(self).comparator() == old(self).comparator(),
            final(self).last_sequence() == seq,
            writes_in_order(final(self).comparator(), final(self)@),
            exists|p: int|
                0 <= p <= old(self)@.len() && final(self)@ == old(self)@.insert(
                    p,
                    Write { user_key: user_key@, seq, kind: value_type, value: value@ },
                ),
    {
        let ghost w = Write { user_key: user_key@, seq, kind: value_type, value: value@ };
        let ghost user = self.order.user_comparator;
        let ghost before = self@;
        let key: Vec<u8> = ParsedInternalKey::encode_parts(user_key, seq, value_type);
        let mut stored: Vec<u8> = Vec::new();
        stored.extend_from_slice(value);
        proof {
            lemma_internal_key_parts(user_key@, seq, value_type);
            assert(stored@ =~= value@);
        }
        let n: usize = self.entries.len();
        let mut p: usize = 0;
        while p < n && self.entry_before(p, key.as_slice())
            invariant
                self.wf(),
                self == old(self),
                n == self.entries@.len(),
                is_stored_key(key@),
                p <= n,
                user == self.order.user_comparator,
                forall|i: int|
                    0 <= i < p ==> write_before(
                        user,
                        #[trigger] self@[i],
                        write_of(key@, Seq::empty()),
                    ),
            decreases n - p,
        {
            p += 1;
        }
        let entry = MemEntry { key, value: stored };
        proof {
            lemma_insert_entry(user, self.entries@, self.last_seq, p as int, entry);
        }
        self.entries.insert(p, entry);
        self.last_seq = seq;
    }

    /// Reads the key of `key` as of its sequence number: of the writes to
    /// the key that are not later, the latest says what is found.
    #[verifier::rlimit(40)]
    pub fn get(&self, key: &LookupKey) -> (res: LookupResult)
        requires
            self.wf(),
        ensures
            is_lookup(self.comparator(), self@, key.user_key_view(), key.sequence(), res),
    {
        let ghost user = self.order.user_comparator;
        let ghost writes = self@;
        let ghost target = probe(key.user_key_view(), key.sequence());
        let internal: &[u8] = key.internal_key();
        proof {
            lemma_internal_key_parts(key.user_key_view(), key.sequence(), VALUE_TYPE_FOR_SEEK);
            assert(write_of(internal@, Seq::empty()) == target);
        }
        // The first write that does not come before what is looked for.
        let mut lo: usize = 0;
        let mut hi: usize = self.entries.len();
        while lo < hi
            invariant
                self.wf(),
                writes == self@,
                user == self.order.user_comparator,
                lo <= hi <= writes.len(),
                writes.len() == self.entries@.len(),
                is_stored_key(internal@),
                write_of(internal@, Seq::empty()) == target,
                forall|i: int| 0 <= i < lo ==> write_before(user, #[trigger] writes[i], target),
                forall|i: int|
                    hi <= i < writes.len() ==> !write_before(user, #[trigger] writes[i], target),
            decreases hi - lo,
        {
            let mid: usize = lo + (hi - lo) / 2;
            if self.entry_before(mid, internal) {
                proof {
                    assert forall|i: int| 0 <= i < mid + 1 implies write_before(
                        user,
                        #[trigger] writes[i],
                        target,
                    ) by {
                        if i < mid {
                            lemma_in_order_at(user, writes, i, mid as int);
                            lemma_before_transitive(user, writes[i], writes[mid as int], target);
                        }
                    }
                }
                lo = mid + 1;
            } else {
                proof {
                    assert forall|i: int| mid <= i < writes.len() implies !write_before(
                        user,
                        #[trigger] writes[i],
                        target,
                    ) by {
                        if i > mid && write_before(user, writes[i], target) {
                            lemma_in_order_at(user, writes, mid as int, i);
                            lemma_before_transitive(user, writes[mid as int], writes[i], target);
                        }
                    }
                }
                hi = mid;
            }
        }
        proof {
            lemma_first_not_before(user, writes, lo as int, key.user_key_view(), key.sequence());
        }
        if lo >= self.entries.len() {
            return LookupResult::NotFound;
        }
        let entry: &MemEntry = &self.entries[lo];
        proof {
            user.lemma_total(writes[lo as int].user_key, key.user_key_view());
            assert(writes[lo as int] == write_of(entry.key@, entry.value@));
        }
        match self.order.user_comparator.compare(user_part(entry.key.as_slice()), key.user_key()) {
            KeyOrder::Equal => {},
            _ => {
                return LookupResult::NotFound;
            },
        }
        proof {
            assert(writes[lo as int] == write_of(entry.key@, entry.value@));
            assert(is_stored_key(entry.key@));
            assert(seen(user, writes, lo as int, key.user_key_view(), key.sequence()));
        }
        match ValueType::from_tag((tail_part(entry.key.as_slice()) % 256) as u8) {
            Some(ValueType::Value) => {
                let mut value: Vec<u8> = Vec::new();
                value.extend_from_slice(entry.value.as_slice());
                assert(value@ =~= writes[lo as int].value);
                assert(seen(
                    self.comparator(),
                    self@,
                    lo as int,
                    key.user_key_view(),
                    key.sequence(),
                ) && self@[lo as int].kind == ValueType::Value && self@[lo as int].value
                    == value@);
                LookupResult::Found(value)
            },
            _ => {
                assert(seen(
                    self.comparator(),
                    self@,
                    lo as int,
                    key.user_key_view(),
                    key.sequence(),
                ) && self@[lo as int].kind == ValueType::Deletion);
                LookupResult::Deleted
            },
        }
    }

    /// Whether the user keys of the writes of the indices `i` and `j` count
    /// as equal.
    fn same_user_key(&self, i: usize, j: usize) -> (same: bool)
        requires
            self.wf(),
            i < self@.len(),
            j < self@.len(),
        ensures
            same == same_key(self.order.user_comparator, self@[i as int], self@[j as int].user_key),
    {
        match self.order.user_comparator.compare(
            user_part(self.entries[i].key.as_slice()),
            user_part(self.entries[j].key.as_slice()),
        ) {
            KeyOrder::Equal => true,
            _ => false,
        }
    }

    /// The keys that have a value as of the sequence number `snapshot`, each
    /// with the value that a read of it finds, in the order of the keys.
    ///
    /// A key whose latest write as of `snapshot` takes it away is left out.
    #[verifier::rlimit(40)]
    pub fn scan(&self, snapshot: u64) -> (found: Vec<(Vec<u8>, Vec<u8>)>)
        requires
            self.wf(),
        ensures
            pairs_view(found@) == live_pairs(self.comparator(), self@, snapshot, self@.len()),
    {
        let ghost user = self.order.user_comparator;
        let ghost writes = self@;
        let n: usize = self.entries.len();
        let mut found: Vec<(Vec<u8>, Vec<u8>)> = Vec::new();
        // The index of the last write that a read sees.
        let mut last: Option<usize> = None;
        let ghost mut seen_last: Option<int> = None;
        let mut i: usize = 0;
        proof {
            lemma_scan_starts(user, writes, snapshot);
            assert(pairs_view(found@) =~= Seq::empty());
        }
        while i < n
            invariant
                self.wf(),
                writes == self@,
                user == self.order.user_comparator,
                n == writes.len(),
                n == self.entries@.len(),
                i <= n,
                seen_last == (match last {
                    Some(d) => Some(d as int),
                    None => None,
                }),
                last matches Some(d) ==> d < i,
                scanned(user, writes, snapshot, i as int, seen_last),
                pairs_view(found@) == live_pairs(user, writes, snapshot, i as nat),
            decreases n - i,
        {
            let entry: &MemEntry = &self.entries[i];
            let ghost w = writes[i as int];
            let ghost before = pairs_view(found@);
            proof {
                assert(w == write_of(entry.key@, entry.value@));
                assert(is_stored_key(entry.key@));
                lemma_write_before(user, entry.key@, entry.key@);
            }
            let seq: u64 = tail_part(entry.key.as_slice()) / 256;
            let fresh: bool = seq <= snapshot && match last {
                Some(d) => !self.same_user_key(d, i),
                None => true,
            };
            if fresh {
                proof {
                    lemma_scan_takes(user, writes, snapshot, i as int, seen_last);
                }
                match ValueType::from_tag((tail_part(entry.key.as_slice()) % 256) as u8) {
                    Some(ValueType::Value) => {
                        let mut key: Vec<u8> = Vec::new();
                        key.extend_from_slice(user_part(entry.key.as_slice()));
                        let mut value: Vec<u8> = Vec::new();
                        value.extend_from_slice(entry.value.as_slice());
                        proof {
                            assert(key@ =~= w.user_key);
                            assert(value@ =~= w.value);
                        }
                        found.push((key, value));
                        proof {
                            assert(pairs_view(found@) =~= before.push((w.user_key, w.value)));
                        }
                    },
                    _ => {},
                }
                last = Some(i);
                proof {
                    seen_last = Some(i as int);
                }
            } else {
                proof {
                    lemma_scan_passes(user, writes, snapshot, i as int, seen_last);
                }
            }
            i += 1;
        }
        found
    }
}

} // verus!
