//! What holds of the bytes of a block: above all, that decoding a block
//! undoes encoding it.

use crate::sstable::block::format::{
    block_decoding, block_encoding, block_layout, common_prefix_len, entries_decoding,
    entries_encoding, entry_decoding, entry_encoding, entry_of, header_decoding, is_restart_offset,
    lemma_header_bounds,
    restart_array, restart_count, restart_point, restarts_encoding, restarts_valid, shared_len,
    Entry, Stored,
};
use crate::util::coding::{fixed32_decoding, le_bytes, lemma_le_bytes_len, lemma_le_round_trip, power};
use crate::util::varint::{lemma_varint_u32_len, lemma_varint_u32_round_trip, varint_encoding};
use vstd::arithmetic::div_mod::{
    lemma_fundamental_div_mod, lemma_mod_multiples_basic, lemma_small_mod,
};
use vstd::prelude::*;

verus! {

/// The bytes of the first `k` entries do not depend on the entries after
/// them.
pub(crate) proof fn lemma_entries_encoding_prefix(entries: Seq<Entry>, more: Seq<Entry>, interval: nat, k: nat)
    requires
        interval >= 1,
        k <= entries.len(),
    ensures
        entries_encoding(entries + more, interval, k) == entries_encoding(entries, interval, k),
    decreases k,
{
    if k > 0 {
        lemma_entries_encoding_prefix(entries, more, interval, (k - 1) as nat);
        assert((entries + more)[k - 1] == entries[k - 1]);
        if k > 1 {
            assert((entries + more)[k - 2] == entries[k - 2]);
        } else {
            lemma_small_mod(0, interval);
        }
    }
}

/// An entry takes at least three bytes and at most fifteen beyond what is
/// stored of its key and its value.
pub(crate) proof fn lemma_entry_encoding_len(shared: nat, key: Seq<u8>, value: Seq<u8>)
    requires
        shared <= key.len() <= u32::MAX,
        value.len() <= u32::MAX,
    ensures
        entry_encoding(shared, key, value).len() >= 3 + (key.len() - shared) + value.len(),
        entry_encoding(shared, key, value).len() <= 15 + (key.len() - shared) + value.len(),
{
    lemma_varint_u32_len(shared as u32);
    lemma_varint_u32_len((key.len() - shared) as u32);
    lemma_varint_u32_len(value.len() as u32);
}

/// The first restart point is zero.
pub(crate) proof fn lemma_first_restart_point(entries: Seq<Entry>, interval: nat)
    ensures
        restart_point(entries, interval, 0) == 0,
{
    assert(0 * interval == 0) by (nonlinear_arith);
}

/// A varint has at least one byte.
pub(crate) proof fn lemma_varint_nonempty(n: nat)
    ensures
        varint_encoding(n).len() >= 1,
{
}

/// Each restart point takes four bytes.
pub(crate) proof fn lemma_restarts_encoding_len(entries: Seq<Entry>, interval: nat, k: nat)
    ensures
        restarts_encoding(entries, interval, k).len() == 4 * k,
    decreases k,
{
    if k > 0 {
        lemma_restarts_encoding_len(entries, interval, (k - 1) as nat);
        lemma_le_bytes_len(restart_point(entries, interval, k - 1), 4);
    }
}

/// What two sequences share at their start is no longer than either, and
/// they agree in it.
pub(crate) proof fn lemma_common_prefix_agrees(a: Seq<u8>, b: Seq<u8>)
    ensures
        common_prefix_len(a, b) <= a.len(),
        common_prefix_len(a, b) <= b.len(),
        a.take(common_prefix_len(a, b) as int) == b.take(common_prefix_len(a, b) as int),
    decreases a.len(),
{
    let k = common_prefix_len(a, b) as int;
    if a.len() > 0 && b.len() > 0 && a[0] == b[0] {
        lemma_common_prefix_agrees(a.drop_first(), b.drop_first());
        assert(a.take(k) =~= seq![a[0]] + a.drop_first().take(k - 1));
        assert(b.take(k) =~= seq![b[0]] + b.drop_first().take(k - 1));
    } else {
        assert(a.take(k) =~= b.take(k));
    }
}

/// Decoding three lengths undoes encoding them, whatever follows them.
pub(crate) proof fn lemma_header_round_trip(shared: u32, non_shared: u32, value_len: u32, rest: Seq<u8>)
    ensures
        header_decoding(
            varint_encoding(shared as nat) + varint_encoding(non_shared as nat) + varint_encoding(
                value_len as nat,
            ) + rest,
        ) == Some(
            (
                shared,
                non_shared,
                value_len,
                varint_encoding(shared as nat).len() + varint_encoding(non_shared as nat).len()
                    + varint_encoding(value_len as nat).len(),
            ),
        ),
{
    let first = varint_encoding(shared as nat);
    let second = varint_encoding(non_shared as nat);
    let third = varint_encoding(value_len as nat);
    let s = first + second + third + rest;
    lemma_varint_u32_round_trip(shared, second + third + rest);
    lemma_varint_u32_round_trip(non_shared, third + rest);
    lemma_varint_u32_round_trip(value_len, rest);
    assert(s =~= first + (second + third + rest));
    assert(s.skip(first.len() as int) =~= second + (third + rest));
    assert(s.skip((first.len() + second.len()) as int) =~= third + rest);
}

/// Decoding an entry undoes encoding it, whatever comes before and after
/// it, where the key before it starts with the bytes that the entry leaves
/// out.
#[verifier::rlimit(40)]
pub(crate) proof fn lemma_entry_round_trip(
    before: Seq<u8>,
    shared: nat,
    key: Seq<u8>,
    value: Seq<u8>,
    after: Seq<u8>,
    prev: Seq<u8>,
)
    requires
        shared <= key.len() <= u32::MAX,
        value.len() <= u32::MAX,
        shared <= prev.len(),
        prev.take(shared as int) == key.take(shared as int),
    ensures
        entry_decoding(before + entry_encoding(shared, key, value) + after, before.len() as int, prev)
            == Some(
            Stored {
                key,
                value,
                start: before.len() as int,
                end: (before.len() + entry_encoding(shared, key, value).len()) as int,
                shared,
            },
        ),
{
    reveal(entry_decoding);
    let region = before + entry_encoding(shared, key, value) + after;
    let non_shared = (key.len() - shared) as nat;
    let lengths = varint_encoding(shared) + varint_encoding(non_shared) + varint_encoding(
        value.len(),
    );
    let h = lengths.len() as int;
    let off = before.len() as int;
    lemma_header_round_trip(
        shared as u32,
        non_shared as u32,
        value.len() as u32,
        key.skip(shared as int) + value + after,
    );
    assert(region.skip(off) =~= lengths + (key.skip(shared as int) + value + after));
    assert(region.subrange(off + h, off + h + non_shared) =~= key.skip(shared as int));
    assert(region.subrange(off + h + non_shared, off + h + non_shared + value.len()) =~= value);
    assert(prev.take(shared as int) + key.skip(shared as int) =~= key);
}

/// The bytes of the first `m` entries are the start of the bytes of the
/// first `n`, for `m` up to `n`.
pub(crate) proof fn lemma_encoding_grows(entries: Seq<Entry>, interval: nat, m: nat, n: nat)
    requires
        m <= n,
    ensures
        entries_encoding(entries, interval, m).len() <= entries_encoding(entries, interval, n).len(),
        entries_encoding(entries, interval, n).take(
            entries_encoding(entries, interval, m).len() as int,
        ) == entries_encoding(entries, interval, m),
    decreases n,
{
    let short = entries_encoding(entries, interval, m);
    let long = entries_encoding(entries, interval, n);
    if m == n {
        assert(long.take(short.len() as int) =~= short);
    } else {
        lemma_encoding_grows(entries, interval, m, (n - 1) as nat);
        let middle = entries_encoding(entries, interval, (n - 1) as nat);
        assert(long.take(short.len() as int) =~= middle.take(short.len() as int));
    }
}

/// A key is no longer than the bytes of the entries up to its own.
pub(crate) proof fn lemma_key_len(entries: Seq<Entry>, interval: nat, i: int)
    requires
        interval >= 1,
        0 <= i < entries.len(),
    ensures
        shared_len(entries, interval, i) <= entries[i].key.len(),
        i > 0 ==> shared_len(entries, interval, i) <= entries[i - 1].key.len(),
        i % (interval as int) != 0 ==> i > 0,
        entries[i].key.len() + entries[i].value.len() + 3 <= entries_encoding(
            entries,
            interval,
            (i + 1) as nat,
        ).len(),
    decreases i,
{
    let shared = shared_len(entries, interval, i);
    lemma_varint_nonempty(shared);
    lemma_varint_nonempty((entries[i].key.len() - shared) as nat);
    lemma_varint_nonempty(entries[i].value.len());
    if i % (interval as int) != 0 {
        if i == 0 {
            lemma_small_mod(0, interval);
        }
        lemma_common_prefix_agrees(entries[i - 1].key, entries[i].key);
        lemma_key_len(entries, interval, i - 1);
    }
}

/// The entries of a block as they are stored.
pub open spec fn stored_of(entries: Seq<Entry>, interval: nat) -> Seq<Stored> {
    Seq::new(
        entries.len(),
        |i: int|
            Stored {
                key: entries[i].key,
                value: entries[i].value,
                start: entries_encoding(entries, interval, i as nat).len() as int,
                end: entries_encoding(entries, interval, (i + 1) as nat).len() as int,
                shared: shared_len(entries, interval, i),
            },
    )
}

/// Decoding the entries from the `m`th on undoes encoding them.
#[verifier::rlimit(40)]
pub(crate) proof fn lemma_entries_round_trip(entries: Seq<Entry>, interval: nat, m: nat)
    requires
        interval >= 1,
        m <= entries.len(),
        entries_encoding(entries, interval, entries.len()).len() <= u32::MAX,
    ensures
        entries_decoding(
            entries_encoding(entries, interval, entries.len()),
            entries_encoding(entries, interval, m).len() as int,
            if m == 0 {
                Seq::empty()
            } else {
                entries[m - 1].key
            },
        ) == Some(stored_of(entries, interval).skip(m as int)),
    decreases entries.len() - m,
{
    let n = entries.len();
    let region = entries_encoding(entries, interval, n);
    let before = entries_encoding(entries, interval, m);
    let prev = if m == 0 {
        Seq::empty()
    } else {
        entries[m - 1].key
    };
    let stored = stored_of(entries, interval);
    lemma_encoding_grows(entries, interval, m, n);
    if m == n {
        assert(stored.skip(m as int) =~= Seq::<Stored>::empty());
    } else {
        let shared = shared_len(entries, interval, m as int);
        let key = entries[m as int].key;
        let value = entries[m as int].value;
        let next = entries_encoding(entries, interval, m + 1);
        lemma_encoding_grows(entries, interval, m + 1, n);
        lemma_key_len(entries, interval, m as int);
        if m as int % (interval as int) != 0 {
            lemma_common_prefix_agrees(entries[m - 1].key, key);
        } else {
            assert(prev.take(0) =~= key.take(0));
        }
        let after = region.skip(next.len() as int);
        assert(region =~= before + entry_encoding(shared, key, value) + after) by {
            assert(region.take(next.len() as int) == next);
            assert(region =~= region.take(next.len() as int) + after);
        }
        lemma_entry_round_trip(before, shared, key, value, after, prev);
        lemma_entries_round_trip(entries, interval, m + 1);
        assert(stored.skip(m as int) =~= seq![stored[m as int]] + stored.skip(m + 1 as int));
    }
}

/// The bytes of more entries are longer.
pub(crate) proof fn lemma_encoding_strict(entries: Seq<Entry>, interval: nat, m: nat, n: nat)
    requires
        m < n,
    ensures
        entries_encoding(entries, interval, m).len() < entries_encoding(entries, interval, n).len(),
{
    lemma_encoding_grows(entries, interval, m, (n - 1) as nat);
    lemma_varint_nonempty(shared_len(entries, interval, n - 1));
}

/// The restart point of index `j` stands at an entry, for `j` below the
/// number of restart points.
pub(crate) proof fn lemma_restart_entry(n: int, interval: int, j: int)
    requires
        interval >= 1,
        n >= 1,
        0 <= j < restart_count(n as nat, interval as nat),
    ensures
        0 <= j * interval < n,
        (j * interval) % interval == 0,
        j > 0 ==> (j - 1) * interval < j * interval,
{
    let q = (n - 1) / interval;
    lemma_fundamental_div_mod(n - 1, interval);
    assert(0 <= j * interval <= q * interval && (j - 1) * interval < j * interval)
        by (nonlinear_arith)
        requires
            0 <= j <= q,
            interval >= 1,
    ;
    assert(q * interval == interval * q) by (nonlinear_arith);
    lemma_mod_multiples_basic(j, interval);
}

/// Decoding a restart point undoes encoding it, whatever follows the restart
/// points.
pub(crate) proof fn lemma_restart_round_trip(
    entries: Seq<Entry>,
    interval: nat,
    k: nat,
    j: int,
    after: Seq<u8>,
)
    requires
        0 <= j < k,
        restart_point(entries, interval, j) <= u32::MAX,
    ensures
        fixed32_decoding((restarts_encoding(entries, interval, k) + after).skip(4 * j))
            == restart_point(entries, interval, j),
    decreases k,
{
    let all = restarts_encoding(entries, interval, k);
    let front = restarts_encoding(entries, interval, (k - 1) as nat);
    let last = le_bytes(restart_point(entries, interval, k - 1), 4);
    lemma_restarts_encoding_len(entries, interval, (k - 1) as nat);
    lemma_le_bytes_len(restart_point(entries, interval, k - 1), 4);
    if j == k - 1 {
        assert((all + after).skip(4 * j) =~= last + after);
        assert(power(256, 4) == 0x1_0000_0000) by {
            reveal_with_fuel(power, 5);
        }
        lemma_le_round_trip(restart_point(entries, interval, j), 4, after);
    } else {
        assert(all + after =~= front + (last + after));
        lemma_restart_round_trip(entries, interval, (k - 1) as nat, j, last + after);
    }
}

/// The restart points of encoded entries are restart points of the entries
/// as they are stored.
pub(crate) proof fn lemma_restart_points_valid(entries: Seq<Entry>, interval: nat)
    requires
        interval >= 1,
    ensures
        restarts_valid(
            stored_of(entries, interval),
            Seq::new(
                restart_count(entries.len(), interval),
                |j: int| restart_point(entries, interval, j),
            ),
        ),
{
    let n = entries.len();
    let count = restart_count(n, interval);
    let stored = stored_of(entries, interval);
    let restarts = Seq::new(count, |j: int| restart_point(entries, interval, j));
    lemma_first_restart_point(entries, interval);
    if n > 0 {
        assert forall|j: int| 0 < j < restarts.len() implies restarts[j - 1] < #[trigger] restarts[j] by {
            lemma_restart_entry(n as int, interval as int, j);
            lemma_restart_entry(n as int, interval as int, j - 1);
            lemma_encoding_strict(
                entries,
                interval,
                ((j - 1) * interval) as nat,
                (j * interval) as nat,
            );
        }
        assert forall|j: int| 0 <= j < restarts.len() implies is_restart_offset(
            stored,
            #[trigger] restarts[j],
        ) by {
            lemma_restart_entry(n as int, interval as int, j);
            let i = j * interval;
            assert(stored[i].start == restarts[j] && stored[i].shared == 0);
        }
    }
}

/// Decoding a block undoes encoding it: the entries of the block of
/// `entries` are `entries`, whatever the restart interval and the order of
/// the keys, as long as the length of the block fits in four bytes.
#[verifier::rlimit(40)]
pub proof fn lemma_block_round_trip(entries: Seq<Entry>, interval: nat)
    requires
        interval >= 1,
        block_encoding(entries, interval).len() <= u32::MAX,
    ensures
        block_decoding(block_encoding(entries, interval)) == Some(entries),
{
    let n = entries.len();
    let count = restart_count(n, interval);
    let region = entries_encoding(entries, interval, n);
    let restarts = restarts_encoding(entries, interval, count);
    let tail = le_bytes(count, 4);
    let data = block_encoding(entries, interval);
    let stored = stored_of(entries, interval);
    lemma_restarts_encoding_len(entries, interval, count);
    lemma_le_bytes_len(count, 4);
    assert(power(256, 4) == 0x1_0000_0000) by {
        reveal_with_fuel(power, 5);
    }
    lemma_le_round_trip(count, 4, Seq::empty());
    assert(data.skip(data.len() - 4) =~= tail + Seq::<u8>::empty());
    assert(block_layout(data) == Some((region.len() as int, count)));
    assert(data.take(region.len() as int) =~= region);
    lemma_entries_round_trip(entries, interval, 0);
    assert(stored.skip(0) =~= stored);
    lemma_restart_points_valid(entries, interval);
    let found = restart_array(data, region.len() as int, count);
    assert forall|j: int| 0 <= j < count implies #[trigger] found[j] == restart_point(
        entries,
        interval,
        j,
    ) by {
        if n > 0 {
            lemma_restart_entry(n as int, interval as int, j);
            lemma_encoding_grows(entries, interval, (j * interval) as nat, n);
        }
        lemma_restart_round_trip(entries, interval, count, j, tail);
        assert(data.skip(region.len() + 4 * j) =~= (restarts + tail).skip(4 * j));
    }
    assert(found =~= Seq::new(count, |j: int| restart_point(entries, interval, j)));
    assert(stored.map_values(|e: Stored| entry_of(e)) =~= entries);
}

/// The key before the entry of index `i` of `rest`, where `prev` is the key
/// before the first.
pub open spec fn key_before(rest: Seq<Stored>, prev: Seq<u8>, i: int) -> Seq<u8> {
    if i == 0 {
        prev
    } else {
        rest[i - 1].key
    }
}

/// What holds of the entries `rest` that are decoded from offset `off` of
/// `region` on: each is what stands at its offset after the key before it,
/// they follow one another without a gap, and they end where `region`
/// ends.
pub open spec fn chained(region: Seq<u8>, off: int, prev: Seq<u8>, rest: Seq<Stored>) -> bool {
    &&& rest.len() == 0 <==> off >= region.len()
    &&& rest.len() > 0 ==> rest[0].start == off && rest.last().end == region.len()
    &&& forall|i: int|
        0 <= i < rest.len() ==> entry_decoding(
            region,
            (#[trigger] rest[i]).start,
            key_before(rest, prev, i),
        ) == Some(rest[i])
    &&& forall|i: int|
        0 <= i < rest.len() ==> off <= (#[trigger] rest[i]).start && rest[i].start + 3
            <= rest[i].end <= region.len()
    &&& forall|i: int, j: int|
        0 <= i < j < rest.len() ==> (#[trigger] rest[i]).end <= (#[trigger] rest[j]).start
    &&& forall|i: int| 0 <= i < rest.len() - 1 ==> (#[trigger] rest[i]).end == rest[i + 1].start
}

/// An entry that decodes takes at least three bytes and ends within the
/// region.
pub(crate) proof fn lemma_entry_bounds(region: Seq<u8>, off: int, prev: Seq<u8>)
    requires
        0 <= off <= region.len(),
    ensures
        entry_decoding(region, off, prev) matches Some(e) ==> e.start == off && off + 3 <= e.end
            <= region.len(),
{
    reveal(entry_decoding);
    lemma_header_bounds(region.skip(off));
}

/// What an entry that decodes is made of: the three lengths at its start say
/// how much of the key before it its key starts with, how many bytes of its
/// key follow them, and how many of its value follow these.
pub(crate) proof fn lemma_entry_parts(region: Seq<u8>, off: int, prev: Seq<u8>)
    requires
        0 <= off <= region.len(),
    ensures
        match entry_decoding(region, off, prev) {
            Some(e) => {
                &&& header_decoding(region.skip(off)) matches Some(
                    (shared, non_shared, value_len, h),
                )
                &&& 3 <= h
                &&& shared <= prev.len()
                &&& e.shared == shared
                &&& e.start == off
                &&& e.end == off + h + non_shared + value_len
                &&& e.end <= region.len()
                &&& e.key == prev.take(shared as int) + region.subrange(
                    off + h,
                    off + h + non_shared,
                )
                &&& e.key.len() == shared + non_shared
                &&& e.value == region.subrange(e.end - value_len, e.end)
                &&& e.value.len() == value_len
            },
            None => {
                header_decoding(region.skip(off)) matches Some(
                    (shared, non_shared, value_len, h),
                ) ==> shared > prev.len() || off + h + non_shared + value_len > region.len()
            },
        },
{
    reveal(entry_decoding);
    lemma_header_bounds(region.skip(off));
}

/// An entry that stores its key whole decodes to itself after any key.
pub(crate) proof fn lemma_whole_key(region: Seq<u8>, off: int, prev: Seq<u8>, other: Seq<u8>)
    requires
        0 <= off <= region.len(),
        entry_decoding(region, off, prev) matches Some(e) && e.shared == 0,
    ensures
        entry_decoding(region, off, other) == entry_decoding(region, off, prev),
{
    reveal(entry_decoding);
    assert(prev.take(0) =~= other.take(0));
}

/// Entries that are decoded one after another are chained.
#[verifier::rlimit(40)]
pub(crate) proof fn lemma_chained(region: Seq<u8>, off: int, prev: Seq<u8>)
    requires
        0 <= off <= region.len(),
    ensures
        entries_decoding(region, off, prev) matches Some(rest) ==> chained(region, off, prev, rest),
    decreases region.len() - off,
{
    if off < region.len() {
        lemma_entry_bounds(region, off, prev);
        if let Some(e) = entry_decoding(region, off, prev) {
            lemma_chained(region, e.end, e.key);
            if let Some(tail) = entries_decoding(region, e.end, e.key) {
                let rest = seq![e] + tail;
                assert(rest[0] == e);
                assert forall|i: int| 0 < i < rest.len() implies #[trigger] rest[i] == tail[i - 1] by {}
                assert forall|i: int| 0 <= i < rest.len() implies entry_decoding(
                    region,
                    (#[trigger] rest[i]).start,
                    key_before(rest, prev, i),
                ) == Some(rest[i]) by {
                    if i > 0 {
                        assert(rest[i] == tail[i - 1]);
                        assert(key_before(rest, prev, i) == key_before(tail, e.key, i - 1));
                    }
                }
                assert forall|i: int| 0 <= i < rest.len() implies off <= (#[trigger] rest[i]).start
                    && rest[i].start + 3 <= rest[i].end <= region.len() by {
                    if i > 0 {
                        assert(rest[i] == tail[i - 1]);
                    }
                }
                assert forall|i: int, j: int| 0 <= i < j < rest.len() implies (#[trigger] rest[i]).end
                    <= (#[trigger] rest[j]).start by {
                    assert(rest[j] == tail[j - 1]);
                    if i > 0 {
                        assert(rest[i] == tail[i - 1]);
                    }
                }
                assert forall|i: int| 0 <= i < rest.len() - 1 implies (#[trigger] rest[i]).end
                    == rest[i + 1].start by {
                    assert(rest[i + 1] == tail[i]);
                    if i > 0 {
                        assert(rest[i] == tail[i - 1]);
                    }
                }
                if tail.len() > 0 {
                    assert(rest.last() == tail.last());
                }
            }
        }
    }
}

} // verus!
