//! Writing a block.

use crate::sstable::block::format::{
    block_decoding, block_encoding, common_prefix_len, entries_encoding, entry_encoding, keys_in_order,
    restart_count, restart_point, restarts_encoding, shared_len, Entry, MAX_ENTRY_OVERHEAD,
};
use crate::sstable::block::laws::{
    lemma_block_round_trip, lemma_entries_encoding_prefix, lemma_entry_encoding_len, lemma_first_restart_point,
    lemma_restarts_encoding_len, lemma_varint_nonempty,
};
use crate::util::coding::{lemma_le_bytes_len, put_fixed_32};
use crate::util::comparator::Comparator;
use crate::util::varint::VarintU32;
use vstd::arithmetic::div_mod::{
    lemma_fundamental_div_mod_converse_div, lemma_fundamental_div_mod_converse_mod,
    lemma_small_mod,
};
use vstd::prelude::*;

verus! {

/// Where `a` and `b` agree in their first `k` bytes and not in the next, `k`
/// is the length of what they share.
proof fn lemma_common_prefix(a: Seq<u8>, b: Seq<u8>, k: int)
    requires
        0 <= k <= a.len(),
        k <= b.len(),
        forall|j: int| 0 <= j < k ==> a[j] == b[j],
        k == a.len() || k == b.len() || a[k] != b[k],
    ensures
        common_prefix_len(a, b) == k,
    decreases k,
{
    if k > 0 {
        assert(a[0] == b[0]);
        assert forall|j: int| 0 <= j < k - 1 implies a.drop_first()[j] == b.drop_first()[j] by {
            assert(a[j + 1] == b[j + 1]);
        }
        lemma_common_prefix(a.drop_first(), b.drop_first(), k - 1);
    }
}

/// The length of what `a` and `b` share at their start.
fn shared_prefix_len(a: &[u8], b: &[u8]) -> (k: usize)
    ensures
        k == common_prefix_len(a@, b@),
        k <= a@.len(),
        k <= b@.len(),
        a@.take(k as int) == b@.take(k as int),
{
    let mut k: usize = 0;
    while k < a.len() && k < b.len() && a[k] == b[k]
        invariant
            k <= a@.len(),
            k <= b@.len(),
            forall|j: int| 0 <= j < k ==> a@[j] == b@[j],
        decreases a@.len() - k,
    {
        k += 1;
    }
    proof {
        lemma_common_prefix(a@, b@, k as int);
        assert(a@.take(k as int) =~= b@.take(k as int));
    }
    k
}

/// Appends to `dst` the entry of `key` and `value` that leaves out the first
/// `shared` bytes of the key.
fn put_entry(dst: &mut Vec<u8>, shared: usize, key: &[u8], value: &[u8])
    requires
        shared <= key@.len() <= u32::MAX,
        value@.len() <= u32::MAX,
    ensures
        final(dst)@ == old(dst)@ + entry_encoding(shared as nat, key@, value@),
{
    let non_shared: usize = key.len() - shared;
    VarintU32::put_varint(dst, shared as u32);
    VarintU32::put_varint(dst, non_shared as u32);
    VarintU32::put_varint(dst, value.len() as u32);
    dst.extend_from_slice(&key[shared..key.len()]);
    dst.extend_from_slice(value);
    assert(dst@ =~= old(dst)@ + entry_encoding(shared as nat, key@, value@));
}

/// Builds a block from entries that are added in the order of their keys.
pub struct BlockBuilder<C: Comparator> {
    block_restart_interval: usize,
    order: C,
    buffer: Vec<u8>,
    restarts: Vec<u32>,
    // The number of entries since the last restart point.
    counter: usize,
    finished: bool,
    last_key: Vec<u8>,
    entries: Ghost<Seq<Entry>>,
}

impl<C: Comparator> BlockBuilder<C> {
    /// The entries added so far.
    pub closed spec fn entries(&self) -> Seq<Entry> {
        self.entries@
    }

    /// The restart interval.
    pub closed spec fn interval(&self) -> nat {
        self.block_restart_interval as nat
    }

    /// Whether the block has been finished.
    pub closed spec fn finished(&self) -> bool {
        self.finished
    }

    /// The order of the keys.
    pub closed spec fn comparator(&self) -> C {
        self.order
    }

    /// What holds of every builder: its buffer holds the entries added so
    /// far, in the order of their keys, and the block they make has a length
    /// that fits in four bytes.
    pub closed spec fn wf(&self) -> bool {
        let n = self.entries@.len();
        let interval = self.block_restart_interval as nat;
        let region = entries_encoding(self.entries@, interval, n);
        &&& interval >= 1
        &&& self.restarts@.len() >= 1
        &&& n == (self.restarts@.len() - 1) * interval + self.counter
        &&& self.counter <= interval
        &&& n > 0 ==> self.counter >= 1
        &&& forall|j: int|
            0 <= j < self.restarts@.len() ==> #[trigger] self.restarts@[j] == restart_point(
                self.entries@,
                interval,
                j,
            )
        &&& self.last_key@ == (if n == 0 {
            Seq::empty()
        } else {
            self.entries@[n - 1].key
        })
        &&& region.len() + 4 * self.restarts@.len() + 4 <= u32::MAX
        &&& keys_in_order(self.order, self.entries@)
        &&& self.buffer@ == (if self.finished {
            block_encoding(self.entries@, interval)
        } else {
            region
        })
    }

    /// A builder without entries.
    pub fn new(block_restart_interval: usize, order: C) -> (builder: Self)
        requires
            block_restart_interval >= 1,
        ensures
            builder.wf(),
            builder.entries() == Seq::<Entry>::empty(),
            builder.interval() == block_restart_interval,
            builder.comparator() == order,
            !builder.finished(),
    {
        let mut restarts: Vec<u32> = Vec::new();
        restarts.push(0);
        proof {
            lemma_first_restart_point(Seq::empty(), block_restart_interval as nat);
        }
        Self {
            block_restart_interval,
            order,
            buffer: Vec::new(),
            restarts,
            counter: 0,
            finished: false,
            last_key: Vec::new(),
            entries: Ghost(Seq::empty()),
        }
    }

    /// The length that the block would have if it were finished now.
    pub fn current_size_estimate(&self) -> (size: usize)
        requires
            self.wf(),
            !self.finished(),
        ensures
            size == block_encoding(self.entries(), self.interval()).len(),
            size <= u32::MAX,
    {
        proof {
            self.lemma_block_len();
        }
        self.buffer.len() + self.restarts.len() * 4 + 4
    }

    /// Whether no entry has been added.
    pub fn is_empty(&self) -> (empty: bool)
        requires
            self.wf(),
            !self.finished(),
        ensures
            empty == (self.entries().len() == 0),
    {
        proof {
            let n = self.entries@.len();
            if n > 0 {
                lemma_varint_nonempty(shared_len(self.entries@, self.interval(), n - 1));
            }
        }
        self.buffer.is_empty()
    }

    /// Adds an entry after those added before.
    ///
    /// The key must not come before the key added last, and the block must
    /// stay short enough for its length to fit in four bytes.
    #[verifier::rlimit(40)]
    pub fn add(&mut self, key: &[u8], value: &[u8])
        requires
            old(self).wf(),
            !old(self).finished(),
            old(self).entries().len() > 0 ==> old(self).comparator().le(
                old(self).entries().last().key,
                key@,
            ),
            block_encoding(old(self).entries(), old(self).interval()).len() + key@.len()
                + value@.len() + MAX_ENTRY_OVERHEAD <= u32::MAX,
        ensures
            final(self).wf(),
            final(self).entries() == old(self).entries().push(Entry { key: key@, value: value@ }),
            final(self).interval() == old(self).interval(),
            final(self).comparator() == old(self).comparator(),
            !final(self).finished(),
            keys_in_order(final(self).comparator(), final(self).entries()),
    {
        let ghost before = self.entries@;
        let ghost n = before.len();
        let ghost interval = self.block_restart_interval as nat;
        let ghost added = Entry { key: key@, value: value@ };
        let ghost after = before.push(added);
        let ghost region = self.buffer@;
        let ghost k = self.restarts@.len();
        let ghost c = self.counter;
        proof {
            self.lemma_block_len();
            lemma_restart_arith(n as int, interval as int, k as int, self.counter as int);
            lemma_push_keeps_encoding(before, added, interval, n);
            lemma_push_keeps_order(self.order, before, added);
        }
        let mut shared: usize = 0;
        if self.counter < self.block_restart_interval {
            shared = shared_prefix_len(self.last_key.as_slice(), key);
        } else {
            self.restarts.push(self.buffer.len() as u32);
            self.counter = 0;
        }
        proof {
            assert(shared == shared_len(after, interval, n as int));
            lemma_entry_encoding_len(shared as nat, key@, value@);
        }
        put_entry(&mut self.buffer, shared, key, value);
        self.last_key.truncate(shared);
        self.last_key.extend_from_slice(&key[shared..key.len()]);
        assert(self.last_key@ =~= key@);
        self.counter += 1;
        self.entries = Ghost(after);
        proof {
            assert forall|j: int| 0 <= j < self.restarts@.len() implies #[trigger] self.restarts@[j]
                == restart_point(after, interval, j) by {
                if j < k {
                    lemma_restart_index(n as int, interval as int, k as int, j);
                    lemma_push_keeps_encoding(before, added, interval, (j * interval) as nat);
                }
            }
            let k2 = self.restarts@.len();
            let c2 = self.counter;
            assert(n + 1 == (k2 - 1) * interval + c2) by (nonlinear_arith)
                requires
                    n == (k - 1) * interval + c,
                    k2 == k && c2 == c + 1 || k2 == k + 1 && c2 == 1 && c == interval,
            ;
            assert(self.buffer@ == entries_encoding(after, interval, after.len()));
        }
    }

    /// Finishes the block and returns its bytes: to the entries it adds the
    /// restart points and their number.
    #[verifier::rlimit(40)]
    pub fn finish(&mut self) -> (block: &[u8])
        requires
            old(self).wf(),
            !old(self).finished(),
        ensures
            final(self).wf(),
            final(self).finished(),
            final(self).entries() == old(self).entries(),
            final(self).interval() == old(self).interval(),
            final(self).comparator() == old(self).comparator(),
            block@ == block_encoding(old(self).entries(), old(self).interval()),
            block@.len() <= u32::MAX,
            block_decoding(block@) == Some(old(self).entries()),
            keys_in_order(old(self).comparator(), old(self).entries()),
    {
        let ghost region = self.buffer@;
        let ghost entries = self.entries@;
        let ghost interval = self.block_restart_interval as nat;
        let ghost restarts = self.restarts@;
        proof {
            self.lemma_block_len();
            lemma_block_round_trip(entries, interval);
        }
        let count: usize = self.restarts.len();
        let mut i: usize = 0;
        while i < count
            invariant
                i <= count,
                count == restarts.len(),
                self.restarts@ == restarts,
                self.buffer@ == region + restarts_encoding(entries, interval, i as nat),
                forall|j: int|
                    0 <= j < restarts.len() ==> #[trigger] restarts[j] == restart_point(
                        entries,
                        interval,
                        j,
                    ),
                self.entries@ == entries,
                self.block_restart_interval == old(self).block_restart_interval,
                self.order == old(self).order,
                self.counter == old(self).counter,
                self.last_key == old(self).last_key,
                self.finished == old(self).finished,
            decreases count - i,
        {
            put_fixed_32(&mut self.buffer, self.restarts[i]);
            i += 1;
            assert(self.buffer@ =~= region + restarts_encoding(entries, interval, i as nat));
        }
        put_fixed_32(&mut self.buffer, count as u32);
        self.finished = true;
        assert(self.buffer@ =~= block_encoding(entries, interval));
        self.buffer.as_slice()
    }

    /// Empties the builder, so that another block can be built with it.
    pub fn reset(&mut self)
        requires
            old(self).wf(),
        ensures
            final(self).wf(),
            final(self).entries() == Seq::<Entry>::empty(),
            final(self).interval() == old(self).interval(),
            final(self).comparator() == old(self).comparator(),
            !final(self).finished(),
    {
        self.buffer.clear();
        self.finished = false;
        self.counter = 0;
        self.restarts.clear();
        self.restarts.push(0);
        self.last_key.clear();
        self.entries = Ghost(Seq::empty());
        proof {
            lemma_first_restart_point(Seq::empty(), self.block_restart_interval as nat);
        }
    }

    /// The length of the block of the entries added so far, and the number
    /// of its restart points.
    proof fn lemma_block_len(&self)
        requires
            self.wf(),
        ensures
            restart_count(self.entries@.len(), self.interval()) == self.restarts@.len(),
            block_encoding(self.entries@, self.interval()).len() == entries_encoding(
                self.entries@,
                self.interval(),
                self.entries@.len(),
            ).len() + 4 * self.restarts@.len() + 4,
    {
        let k = self.restarts@.len();
        lemma_restart_arith(
            self.entries@.len() as int,
            self.block_restart_interval as int,
            k as int,
            self.counter as int,
        );
        lemma_restarts_encoding_len(self.entries@, self.interval(), k);
        lemma_le_bytes_len(k, 4);
    }
}

/// The number of restart points `k` and the entries `counter` since the last
/// of them say how many entries `n` there are, and whether the next entry is
/// a restart point.
proof fn lemma_restart_arith(n: int, interval: int, k: int, counter: int)
    requires
        interval >= 1,
        k >= 1,
        0 <= counter <= interval,
        n == (k - 1) * interval + counter,
        n >= 0,
        n > 0 ==> counter >= 1,
    ensures
        restart_count(n as nat, interval as nat) == k,
        n % interval == 0 <==> (counter == interval || n == 0),
        counter == interval ==> n == k * interval,
{
    assert(n == k * interval + (counter - interval)) by (nonlinear_arith)
        requires
            n == (k - 1) * interval + counter,
    ;
    if n == 0 {
        assert(k == 1) by (nonlinear_arith)
            requires
                (k - 1) * interval + counter == 0,
                k >= 1,
                interval >= 1,
                counter >= 0,
        ;
        lemma_small_mod(0, interval as nat);
    } else {
        lemma_fundamental_div_mod_converse_div(n - 1, interval, k - 1, counter - 1);
        if counter == interval {
            lemma_fundamental_div_mod_converse_mod(n, interval, k, 0);
        } else {
            lemma_fundamental_div_mod_converse_mod(n, interval, k - 1, counter);
        }
    }
}

/// The entry that a restart point stands at is among the entries.
proof fn lemma_restart_index(n: int, interval: int, k: int, j: int)
    requires
        interval >= 1,
        0 <= j < k,
        n >= (k - 1) * interval,
    ensures
        0 <= j * interval <= n,
{
    assert(0 <= j * interval <= (k - 1) * interval) by (nonlinear_arith)
        requires
            0 <= j <= k - 1,
            interval >= 1,
    ;
}

/// One more entry leaves the bytes of the entries before it as they were.
proof fn lemma_push_keeps_encoding(entries: Seq<Entry>, added: Entry, interval: nat, m: nat)
    requires
        interval >= 1,
        m <= entries.len(),
    ensures
        entries_encoding(entries.push(added), interval, m) == entries_encoding(entries, interval, m),
{
    assert(entries.push(added) =~= entries + seq![added]);
    lemma_entries_encoding_prefix(entries, seq![added], interval, m);
}

/// Keys stay in order when a key is added that does not come before the
/// last.
proof fn lemma_push_keeps_order<C: Comparator>(order: C, entries: Seq<Entry>, added: Entry)
    requires
        keys_in_order(order, entries),
        entries.len() > 0 ==> order.le(entries.last().key, added.key),
    ensures
        keys_in_order(order, entries.push(added)),
{
    let n = entries.len() as int;
    let after = entries.push(added);
    assert forall|i: int, j: int| 0 <= i < j < after.len() implies order.le(
        #[trigger] after[i].key,
        #[trigger] after[j].key,
    ) by {
        if j == n {
            if i < n - 1 {
                assert(order.le(entries[i].key, entries[n - 1].key));
                order.lemma_transitive(entries[i].key, entries[n - 1].key, added.key);
            }
        } else {
            assert(order.le(entries[i].key, entries[j].key));
        }
    }
}

} // verus!
