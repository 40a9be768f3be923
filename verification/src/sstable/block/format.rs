//! What a block holds, and the bytes that stand for it.

use crate::util::coding::{fixed32_decoding, le_bytes};
use crate::util::comparator::Comparator;
use crate::util::varint::{lemma_span_bounds, varint_encoding, varint_u32_decoding};
use vstd::prelude::*;

verus! {

/// A key with its value.
pub struct Entry {
    pub key: Seq<u8>,
    pub value: Seq<u8>,
}

/// The most bytes that an entry adds to a block beyond its key and its value:
/// three varints of five bytes, and a restart point.
pub const MAX_ENTRY_OVERHEAD: usize = 19;

/// The length of the longest sequence that both `a` and `b` start with.
pub open spec fn common_prefix_len(a: Seq<u8>, b: Seq<u8>) -> nat
    decreases a.len(),
{
    if a.len() > 0 && b.len() > 0 && a[0] == b[0] {
        1 + common_prefix_len(a.drop_first(), b.drop_first())
    } else {
        0
    }
}

/// How many bytes of its key the entry of index `i` leaves out: none at a
/// restart point, else what the key shares with the key before it.
pub open spec fn shared_len(entries: Seq<Entry>, interval: nat, i: int) -> nat {
    if i % (interval as int) == 0 {
        0
    } else {
        common_prefix_len(entries[i - 1].key, entries[i].key)
    }
}

/// The bytes of an entry that leaves out the first `shared` bytes of its key.
pub open spec fn entry_encoding(shared: nat, key: Seq<u8>, value: Seq<u8>) -> Seq<u8> {
    varint_encoding(shared) + varint_encoding((key.len() - shared) as nat) + varint_encoding(
        value.len(),
    ) + key.skip(shared as int) + value
}

/// The bytes of the first `n` entries.
pub open spec fn entries_encoding(entries: Seq<Entry>, interval: nat, n: nat) -> Seq<u8>
    decreases n,
{
    if n == 0 {
        Seq::empty()
    } else {
        entries_encoding(entries, interval, (n - 1) as nat) + entry_encoding(
            shared_len(entries, interval, n - 1),
            entries[n - 1].key,
            entries[n - 1].value,
        )
    }
}

/// The number of restart points of a block of `n` entries. A block without
/// entries has one.
pub open spec fn restart_count(n: nat, interval: nat) -> nat {
    if n == 0 {
        1
    } else {
        ((n - 1) / (interval as int) + 1) as nat
    }
}

/// The restart point of index `j`: the offset of the entry of index
/// `j * interval`.
pub open spec fn restart_point(entries: Seq<Entry>, interval: nat, j: int) -> nat {
    entries_encoding(entries, interval, (j * interval) as nat).len()
}

/// The bytes of the first `k` restart points.
pub open spec fn restarts_encoding(entries: Seq<Entry>, interval: nat, k: nat) -> Seq<u8>
    decreases k,
{
    if k == 0 {
        Seq::empty()
    } else {
        restarts_encoding(entries, interval, (k - 1) as nat) + le_bytes(
            restart_point(entries, interval, k - 1),
            4,
        )
    }
}

/// The block of `entries`: the entries, the restart points and their number.
pub open spec fn block_encoding(entries: Seq<Entry>, interval: nat) -> Seq<u8> {
    let count = restart_count(entries.len(), interval);
    entries_encoding(entries, interval, entries.len()) + restarts_encoding(
        entries,
        interval,
        count,
    ) + le_bytes(count, 4)
}

/// An entry as it is found in a block: its key and value, where it starts
/// and ends, and how many bytes of its key it leaves out.
pub struct Stored {
    pub key: Seq<u8>,
    pub value: Seq<u8>,
    pub start: int,
    pub end: int,
    pub shared: nat,
}

/// The three lengths that `s` starts with, and the number of bytes they
/// take: how much of the key is left out, how much of it is stored, and the
/// length of the value.
pub open spec fn header_decoding(s: Seq<u8>) -> Option<(u32, u32, u32, nat)> {
    match varint_u32_decoding(s) {
        Some((shared, a)) => match varint_u32_decoding(s.skip(a as int)) {
            Some((non_shared, b)) => match varint_u32_decoding(s.skip((a + b) as int)) {
                Some((value_len, c)) => Some((shared, non_shared, value_len, a + b + c)),
                None => None,
            },
            None => None,
        },
        None => None,
    }
}

/// The entry that starts at offset `off` of `region`, where the key before
/// it is `prev`. `None` where the three lengths do not decode, more of the
/// key is left out than `prev` has, or the entry does not end within
/// `region`.
#[verifier::opaque]
pub open spec fn entry_decoding(region: Seq<u8>, off: int, prev: Seq<u8>) -> Option<Stored> {
    match header_decoding(region.skip(off)) {
        Some((shared, non_shared, value_len, h)) => {
            let key_at = off + h;
            let value_at = key_at + non_shared;
            let end = value_at + value_len;
            if shared <= prev.len() && end <= region.len() {
                Some(
                    Stored {
                        key: prev.take(shared as int) + region.subrange(key_at, value_at),
                        value: region.subrange(value_at, end),
                        start: off,
                        end,
                        shared: shared as nat,
                    },
                )
            } else {
                None
            }
        },
        None => None,
    }
}

/// The entries of `region` from offset `off` to its end, where the key
/// before them is `prev`. `None` where one of them does not decode.
pub open spec fn entries_decoding(region: Seq<u8>, off: int, prev: Seq<u8>) -> Option<Seq<Stored>>
    decreases region.len() - off,
    via entries_decoding_decreases
{
    if off < 0 || off >= region.len() {
        Some(Seq::empty())
    } else {
        match entry_decoding(region, off, prev) {
            Some(e) => match entries_decoding(region, e.end, e.key) {
                Some(rest) => Some(seq![e] + rest),
                None => None,
            },
            None => None,
        }
    }
}

#[via_fn]
proof fn entries_decoding_decreases(region: Seq<u8>, off: int, prev: Seq<u8>) {
    reveal(entry_decoding);
    if 0 <= off < region.len() {
        lemma_header_bounds(region.skip(off));
    }
}

/// The three lengths take at least three bytes and end within the sequence
/// they are decoded from.
pub(crate) proof fn lemma_header_bounds(s: Seq<u8>)
    ensures
        header_decoding(s) matches Some((_, _, _, h)) ==> 3 <= h <= s.len(),
{
    lemma_span_bounds(s);
    if let Some((_, a)) = varint_u32_decoding(s) {
        lemma_span_bounds(s.skip(a as int));
        if let Some((_, b)) = varint_u32_decoding(s.skip(a as int)) {
            lemma_span_bounds(s.skip((a + b) as int));
        }
    }
}

/// Where the restart points of a block are and how many there are: the
/// length of what comes before them, and their number, which the last four
/// bytes hold. `None` where `data` has no room for them.
pub open spec fn block_layout(data: Seq<u8>) -> Option<(int, nat)> {
    if data.len() < 4 {
        None
    } else {
        let count = fixed32_decoding(data.skip(data.len() - 4));
        if count >= 1 && 4 * (count + 1) <= data.len() {
            Some((data.len() - 4 * (count + 1), count))
        } else {
            None
        }
    }
}

/// The `count` restart points that `data` holds from offset `at`.
pub open spec fn restart_array(data: Seq<u8>, at: int, count: nat) -> Seq<nat> {
    Seq::new(count, |j: int| fixed32_decoding(data.skip(at + 4 * j)))
}

/// Whether an entry starts at offset `off` that stores its key whole.
pub open spec fn is_restart_offset(stored: Seq<Stored>, off: nat) -> bool {
    exists|i: int| 0 <= i < stored.len() && #[trigger] stored[i].start == off && stored[i].shared == 0
}

/// Whether `restarts` can be the restart points of the entries `stored`: the
/// first is zero, each is more than the one before it, and at each of them
/// an entry starts that stores its key whole. Without entries there is the
/// one restart point.
pub open spec fn restarts_valid(stored: Seq<Stored>, restarts: Seq<nat>) -> bool {
    &&& restarts.len() >= 1
    &&& restarts[0] == 0
    &&& forall|j: int| 0 < j < restarts.len() ==> restarts[j - 1] < #[trigger] restarts[j]
    &&& if stored.len() == 0 {
        restarts.len() == 1
    } else {
        forall|j: int| 0 <= j < restarts.len() ==> is_restart_offset(stored, #[trigger] restarts[j])
    }
}

/// The entries of the block `data` as they are stored. `None` where `data`
/// is not a block.
pub open spec fn block_stored(data: Seq<u8>) -> Option<Seq<Stored>> {
    match block_layout(data) {
        Some((region_len, count)) => match entries_decoding(
            data.take(region_len),
            0,
            Seq::empty(),
        ) {
            Some(stored) => if restarts_valid(stored, restart_array(data, region_len, count)) {
                Some(stored)
            } else {
                None
            },
            None => None,
        },
        None => None,
    }
}

/// The key and the value of a stored entry.
pub open spec fn entry_of(e: Stored) -> Entry {
    Entry { key: e.key, value: e.value }
}

/// The entries of the block `data`. `None` where `data` is not a block: where
/// it has no room for its restart points, an entry does not decode, or a
/// restart point is not the offset of an entry that stores its key whole.
pub open spec fn block_decoding(data: Seq<u8>) -> Option<Seq<Entry>> {
    match block_stored(data) {
        Some(stored) => Some(stored.map_values(|e: Stored| entry_of(e))),
        None => None,
    }
}

/// Whether no key comes after a key that follows it.
pub open spec fn keys_in_order<C: Comparator>(order: C, entries: Seq<Entry>) -> bool {
    forall|i: int, j: int|
        0 <= i < j < entries.len() ==> order.le(#[trigger] entries[i].key, #[trigger] entries[j].key)
}

} // verus!
