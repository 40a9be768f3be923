//! Reading a block.

use crate::sstable::block::format::{
    block_decoding, block_layout, block_stored, entries_decoding, entry_decoding, entry_of,
    header_decoding, is_restart_offset, keys_in_order, restart_array, restarts_valid, Entry,
    Stored,
};
use crate::util::comparator::{Comparator, KeyOrder};
use crate::sstable::block::laws::{
    chained, key_before, lemma_chained, lemma_entry_bounds, lemma_entry_parts, lemma_whole_key,
};
use crate::util::coding::{decode_fixed_32, fixed32_decoding};
use crate::util::status::{corruption, Status, WickErr};
use crate::util::varint::{lemma_span_bounds, VarintU32};
use vstd::prelude::*;

verus! {

/// The error for bytes that are not a block.
fn bad_block() -> (e: WickErr)
    ensures
        e@ == corruption("bad block contents"@),
{
    WickErr::new(Status::Corruption, Some("bad block contents"))
}

/// Reads the three lengths of the entry that starts at offset `off` of
/// `data` and ends before `limit`, and returns them with the number of bytes
/// they take.
fn decode_header(data: &[u8], off: usize, limit: usize) -> (res: Option<(u32, u32, u32, usize)>)
    requires
        off <= limit <= data@.len(),
    ensures
        res == match header_decoding(data@.take(limit as int).skip(off as int)) {
            Some((shared, non_shared, value_len, h)) => Some(
                (shared, non_shared, value_len, h as usize),
            ),
            None => None,
        },
        res matches Some((_, _, _, h)) ==> 3 <= h <= limit - off,
{
    let src = &data[off..limit];
    proof {
        assert(src@ =~= data@.take(limit as int).skip(off as int));
        lemma_span_bounds(src@);
    }
    let (shared, a) = match VarintU32::read(src) {
        Some(found) => found,
        None => {
            return None;
        },
    };
    proof {
        assert(src@.subrange(a as int, src@.len() as int) =~= src@.skip(a as int));
        lemma_span_bounds(src@.skip(a as int));
    }
    let (non_shared, b) = match VarintU32::read(&src[a..src.len()]) {
        Some(found) => found,
        None => {
            return None;
        },
    };
    proof {
        assert(src@.subrange(a + b, src@.len() as int) =~= src@.skip(a + b));
        lemma_span_bounds(src@.skip(a + b));
    }
    let (value_len, c) = match VarintU32::read(&src[a + b..src.len()]) {
        Some(found) => found,
        None => {
            return None;
        },
    };
    Some((shared, non_shared, value_len, a + b + c))
}

/// Reads the restart point of index `j` of those that start at offset `at`
/// of `data`.
fn restart_at(data: &[u8], at: usize, j: usize) -> (r: u32)
    requires
        at + 4 * j + 4 <= data@.len(),
    ensures
        r == fixed32_decoding(data@.skip(at + 4 * j)),
{
    let len: usize = data.len();
    let from: usize = at + 4 * j;
    proof {
        assert(data@.subrange(from as int, data@.len() as int) =~= data@.skip(at + 4 * j));
    }
    decode_fixed_32(&data[from..len])
}

/// No entry that stores its key whole starts at `r`, where the entries
/// `done` start before `r` and of the entries `rest` that follow them the
/// first starts after `r`, or at `r` without storing its key whole.
proof fn lemma_not_restart(done: Seq<Stored>, rest: Seq<Stored>, r: nat)
    requires
        forall|i: int| 0 <= i < done.len() ==> (#[trigger] done[i]).start < r,
        rest.len() > 0,
        rest[0].start > r || (rest[0].start == r && rest[0].shared != 0),
        forall|i: int| 0 <= i < rest.len() ==> (#[trigger] rest[i]).start + 3 <= rest[i].end,
        forall|i: int, j: int|
            0 <= i < j < rest.len() ==> (#[trigger] rest[i]).end <= (#[trigger] rest[j]).start,
    ensures
        !is_restart_offset(done + rest, r),
{
    let all = done + rest;
    assert forall|i: int| 0 <= i < all.len() implies !((#[trigger] all[i]).start == r
        && all[i].shared == 0) by {
        if i < done.len() {
            assert(all[i] == done[i]);
        } else {
            let k = i - done.len();
            assert(all[i] == rest[k]);
            if k > 0 {
                assert(rest[0].end <= rest[k].start);
            }
        }
    }
}

/// An entry that stores its key whole and starts at `r` still does when
/// another entry has been decoded.
proof fn lemma_restart_kept(done: Seq<Stored>, e: Stored, r: nat)
    requires
        is_restart_offset(done, r),
    ensures
        is_restart_offset(done.push(e), r),
{
    let i = choose|i: int| 0 <= i < done.len() && #[trigger] done[i].start == r && done[i].shared == 0;
    assert(done.push(e)[i] == done[i]);
}

/// Reads the entry that starts at offset `off` of `data` and ends before
/// `limit`, where the key before it has `prev_len` bytes, and returns how
/// many bytes of its key it leaves out, how long its key is, and where it
/// ends.
fn check_entry(data: &[u8], off: usize, limit: usize, prev_len: usize, Ghost(prev): Ghost<
    Seq<u8>,
>) -> (res: Option<(u32, usize, usize)>)
    requires
        off < limit <= data@.len(),
        prev.len() == prev_len,
        prev_len <= off,
    ensures
        match res {
            Some((shared, key_len, end)) => {
                &&& entry_decoding(data@.take(limit as int), off as int, prev) matches Some(e)
                &&& e.shared == shared
                &&& e.key.len() == key_len
                &&& e.end == end
                &&& e.start == off
                &&& key_len <= end
                &&& off + 3 <= end <= limit
            },
            None => entry_decoding(data@.take(limit as int), off as int, prev) is None,
        },
{
    proof {
        lemma_entry_parts(data@.take(limit as int), off as int, prev);
    }
    let (shared, non_shared, value_len, h) = match decode_header(data, off, limit) {
        Some(found) => found,
        None => {
            return None;
        },
    };
    if shared as usize > prev_len {
        return None;
    }
    let room: usize = limit - off - h;
    if non_shared as usize > room || value_len as usize > room - non_shared as usize {
        return None;
    }
    Some(
        (
            shared,
            shared as usize + non_shared as usize,
            off + h + non_shared as usize + value_len as usize,
        ),
    )
}

/// What is known while the entries of `region` are checked from its start
/// up to offset `off`: the entries `done` have been decoded, the key of the
/// last is `prev`, and the restart points below index `ri` have been found
/// among them.
spec fn checked_so_far(
    region: Seq<u8>,
    restarts: Seq<nat>,
    off: int,
    prev: Seq<u8>,
    done: Seq<Stored>,
    ri: int,
) -> bool {
    &&& entries_decoding(region, 0, Seq::empty()) == match entries_decoding(region, off, prev) {
        Some(rest) => Some(done + rest),
        None => None,
    }
    &&& done.len() == 0 <==> off == 0
    &&& done.len() > 0 ==> ri >= 1
    &&& 0 <= ri <= restarts.len()
    &&& forall|j: int| 0 <= j < ri ==> is_restart_offset(done, #[trigger] restarts[j])
    &&& ri < restarts.len() ==> forall|i: int|
        0 <= i < done.len() ==> (#[trigger] done[i]).start < restarts[ri]
    &&& forall|j: int| 0 < j < restarts.len() && j <= ri ==> restarts[j - 1] < #[trigger] restarts[j]
}

/// Where a restart point cannot be the offset of an entry that stores its
/// key whole, the bytes are no block.
#[verifier::rlimit(40)]
proof fn lemma_check_fails(
    region: Seq<u8>,
    restarts: Seq<nat>,
    off: int,
    prev: Seq<u8>,
    done: Seq<Stored>,
    ri: int,
)
    requires
        checked_so_far(region, restarts, off, prev, done, ri),
        0 <= off < region.len(),
        ri < restarts.len(),
        entry_decoding(region, off, prev) matches Some(e) && (restarts[ri] < off || (restarts[ri]
            == off && e.shared != 0)),
    ensures
        entries_decoding(region, 0, Seq::empty()) matches Some(stored) ==> !restarts_valid(
            stored,
            restarts,
        ),
{
    lemma_chained(region, off, prev);
    if let Some(rest) = entries_decoding(region, off, prev) {
        assert(rest[0] == entry_decoding(region, off, prev).unwrap());
        lemma_not_restart(done, rest, restarts[ri]);
        assert((done + rest).len() > 0);
    }
}

/// Checking goes on after an entry that fits the restart points.
#[verifier::rlimit(40)]
proof fn lemma_check_goes_on(
    region: Seq<u8>,
    restarts: Seq<nat>,
    off: int,
    prev: Seq<u8>,
    done: Seq<Stored>,
    ri: int,
    next_ri: int,
)
    requires
        checked_so_far(region, restarts, off, prev, done, ri),
        0 <= off < region.len(),
        entry_decoding(region, off, prev) is Some,
        restarts.len() >= 1,
        restarts[0] == 0,
        ({
            let e = entry_decoding(region, off, prev).unwrap();
            if ri < restarts.len() && restarts[ri] == off {
                &&& e.shared == 0
                &&& next_ri == ri + 1
                &&& next_ri < restarts.len() ==> restarts[next_ri] > off
            } else {
                &&& next_ri == ri
                &&& ri < restarts.len() ==> restarts[ri] > off
            }
        }),
    ensures
        ({
            let e = entry_decoding(region, off, prev).unwrap();
            checked_so_far(region, restarts, e.end, e.key, done.push(e), next_ri)
        }),
{
    let e = entry_decoding(region, off, prev).unwrap();
    lemma_entry_bounds(region, off, prev);
    let more = done.push(e);
    if let Some(tail) = entries_decoding(region, e.end, e.key) {
        assert(more + tail =~= done + (seq![e] + tail));
    }
    assert forall|j: int| 0 <= j < next_ri implies is_restart_offset(
        more,
        #[trigger] restarts[j],
    ) by {
        if j < ri {
            lemma_restart_kept(done, e, restarts[j]);
        } else {
            assert(more[done.len() as int] == e);
        }
    }
    assert forall|i: int| 0 <= i < more.len() && next_ri < restarts.len() implies (
    #[trigger] more[i]).start < restarts[next_ri] by {
        if i < done.len() {
            assert(more[i] == done[i]);
            if next_ri != ri {
                assert(is_restart_offset(done, restarts[0]) || ri == 0);
            }
        }
    }
}

/// Whether the first `region_len` bytes of `data` are entries, and the
/// `count` restart points that follow them are restart points of these
/// entries.
#[verifier::rlimit(40)]
fn check_entries(data: &[u8], region_len: usize, count: usize) -> (ok: bool)
    requires
        count >= 1,
        region_len + 4 * count + 4 == data@.len(),
    ensures
        ok == match entries_decoding(data@.take(region_len as int), 0, Seq::empty()) {
            Some(stored) => restarts_valid(
                stored,
                restart_array(data@, region_len as int, count as nat),
            ),
            None => false,
        },
{
    let ghost region = data@.take(region_len as int);
    let ghost restarts = restart_array(data@, region_len as int, count as nat);
    if restart_at(data, region_len, 0) != 0 {
        return false;
    }
    let mut off: usize = 0;
    let mut prev_len: usize = 0;
    let mut ri: usize = 0;
    let ghost mut done: Seq<Stored> = Seq::empty();
    let ghost mut prev: Seq<u8> = Seq::empty();
    proof {
        if let Some(rest) = entries_decoding(region, 0, prev) {
            assert(done + rest =~= rest);
        }
    }
    while off < region_len
        invariant
            off <= region_len,
            count >= 1,
            region_len + 4 * count + 4 == data@.len(),
            region == data@.take(region_len as int),
            restarts == restart_array(data@, region_len as int, count as nat),
            restarts[0] == 0,
            prev.len() == prev_len,
            prev_len <= off,
            ri <= count,
            checked_so_far(region, restarts, off as int, prev, done, ri as int),
        decreases region_len - off,
    {
        let (shared, key_len, end) = match check_entry(data, off, region_len, prev_len, Ghost(prev)) {
            Some(found) => found,
            None => {
                return false;
            },
        };
        let ghost before = ri;
        if ri < count {
            let r: usize = restart_at(data, region_len, ri) as usize;
            assert(r == restarts[ri as int]);
            if r == off {
                if shared != 0 {
                    proof {
                        lemma_check_fails(region, restarts, off as int, prev, done, ri as int);
                    }
                    return false;
                }
                ri += 1;
                if ri < count {
                    let next: usize = restart_at(data, region_len, ri) as usize;
                    assert(next == restarts[ri as int]);
                    if next <= off {
                        return false;
                    }
                }
            } else if r < off {
                proof {
                    lemma_check_fails(region, restarts, off as int, prev, done, ri as int);
                }
                return false;
            }
        }
        proof {
            lemma_check_goes_on(region, restarts, off as int, prev, done, before as int, ri as int);
            let e = entry_decoding(region, off as int, prev).unwrap();
            done = done.push(e);
            prev = e.key;
        }
        prev_len = key_len;
        off = end;
    }
    proof {
        assert(done + Seq::<Stored>::empty() =~= done);
    }
    if region_len == 0 {
        count == 1
    } else {
        ri == count
    }
}

/// A block that has been found to be one: its entries decode, and its
/// restart points are where entries start that store their key whole.
pub struct Block {
    data: Vec<u8>,
    // Where the restart points start.
    restart_offset: usize,
    // The number of restart points.
    restarts_len: usize,
}

impl View for Block {
    type V = Seq<u8>;

    /// The bytes of the block.
    closed spec fn view(&self) -> Seq<u8> {
        self.data@
    }
}

impl Block {
    #[verifier::type_invariant]
    spec fn well_formed(self) -> bool {
        &&& block_layout(self.data@) == Some((self.restart_offset as int, self.restarts_len as nat))
        &&& block_stored(self.data@) is Some
    }

    /// The entries of the block.
    pub open spec fn entries(&self) -> Seq<Entry> {
        block_decoding(self@).unwrap()
    }

    /// The bytes of the entries.
    spec fn region(&self) -> Seq<u8> {
        self.data@.take(self.restart_offset as int)
    }

    /// The entries as they are stored.
    spec fn stored(&self) -> Seq<Stored> {
        block_stored(self.data@).unwrap()
    }

    /// The restart points.
    spec fn restarts(&self) -> Seq<nat> {
        restart_array(self.data@, self.restart_offset as int, self.restarts_len as nat)
    }

    /// What holds of a block as a whole.
    proof fn lemma_well_formed(&self)
        requires
            self.well_formed(),
        ensures
            self.restarts_len >= 1,
            self.restart_offset + 4 * self.restarts_len + 4 == self.data@.len(),
            self.entries() == self.stored().map_values(|e: Stored| entry_of(e)),
            self.entries().len() == self.stored().len(),
            self.region().len() == self.restart_offset,
            self.stored().len() == 0 <==> self.restart_offset == 0,
            self.restarts().len() == self.restarts_len,
    {
        lemma_chained(self.region(), 0, Seq::empty());
    }

    /// What holds of the entry of index `i`: it is what stands at its offset
    /// after the key before it, and the next entry starts where it ends.
    proof fn lemma_entry_at(&self, i: int)
        requires
            self.well_formed(),
            0 <= i < self.stored().len(),
        ensures
            entry_decoding(
                self.region(),
                self.stored()[i].start,
                key_before(self.stored(), Seq::empty(), i),
            ) == Some(self.stored()[i]),
            0 <= self.stored()[i].start,
            self.stored()[i].start + 3 <= self.stored()[i].end <= self.restart_offset,
            i == 0 <==> self.stored()[i].start == 0,
            i + 1 < self.stored().len() ==> self.stored()[i].end == self.stored()[i + 1].start,
            i + 1 == self.stored().len() <==> self.stored()[i].end == self.restart_offset,
    {
        let stored = self.stored();
        lemma_chained(self.region(), 0, Seq::empty());
        assert(chained(self.region(), 0, Seq::empty(), stored));
        if i > 0 {
            assert(stored[0].end <= stored[i].start);
        }
        if i + 1 < stored.len() {
            assert(stored[i].end == stored[i + 1].start);
            assert(stored[i + 1].start + 3 <= stored[i + 1].end);
        }
    }

    /// An entry ends before a later entry starts.
    proof fn lemma_entries_follow(&self, i: int, j: int)
        requires
            self.well_formed(),
            0 <= i < j < self.stored().len(),
        ensures
            self.stored()[i].start < self.stored()[i].end <= self.stored()[j].start,
    {
        let stored = self.stored();
        lemma_chained(self.region(), 0, Seq::empty());
        assert(stored[i].end <= stored[j].start);
        assert(stored[i].start + 3 <= stored[i].end);
    }

    /// The index of the entry at which the restart point of index `j`
    /// stands.
    spec fn restart_entry(&self, j: int) -> int {
        let stored = self.stored();
        let r = self.restarts()[j];
        choose|i: int| 0 <= i < stored.len() && #[trigger] stored[i].start == r && stored[i].shared == 0
    }

    /// What holds of the restart point of index `j`: an entry starts there
    /// that decodes after any key.
    proof fn lemma_restart(&self, j: int)
        requires
            self.well_formed(),
            self.stored().len() > 0,
            0 <= j < self.restarts_len,
        ensures
            0 <= self.restart_entry(j) < self.stored().len(),
            self.stored()[self.restart_entry(j)].start == self.restarts()[j],
            self.restarts()[j] < self.restart_offset,
            entry_decoding(self.region(), self.restarts()[j] as int, Seq::empty()) == Some(
                self.stored()[self.restart_entry(j)],
            ),
            j == 0 ==> self.restart_entry(j) == 0,
    {
        let stored = self.stored();
        let r = self.restarts()[j];
        assert(restarts_valid(stored, self.restarts()));
        assert(is_restart_offset(stored, r));
        let i = self.restart_entry(j);
        self.lemma_entry_at(i);
        lemma_whole_key(self.region(), r as int, key_before(stored, Seq::empty(), i), Seq::empty());
    }

    /// The key of the entry at which the restart point of index `j` stands.
    fn restart_key(&self, j: usize) -> (key: &[u8])
        requires
            self.well_formed(),
            self.stored().len() > 0,
            j < self.restarts_len,
        ensures
            key@ == self.stored()[self.restart_entry(j as int)].key,
    {
        proof {
            self.lemma_well_formed();
            self.lemma_restart(j as int);
        }
        let data: &[u8] = self.data.as_slice();
        let off: usize = restart_at(data, self.restart_offset, j) as usize;
        proof {
            lemma_entry_parts(self.region(), off as int, Seq::empty());
        }
        match decode_header(data, off, self.restart_offset) {
            Some((_, non_shared, _, h)) => {
                let key_at: usize = off + h;
                let value_at: usize = key_at + non_shared as usize;
                proof {
                    assert(data@.subrange(key_at as int, value_at as int) =~= Seq::<u8>::empty().take(
                        0,
                    ) + self.region().subrange(key_at as int, value_at as int));
                }
                &data[key_at..value_at]
            },
            None => &data[0..0],
        }
    }

    /// Makes a block of `data`, if `data` is one.
    ///
    /// Where it is not, the result is a `Corruption` error: where `data` has
    /// no room for its restart points, an entry does not decode, or a restart
    /// point is not the offset of an entry that stores its key whole.
    pub fn new(data: Vec<u8>) -> (res: Result<Self, WickErr>)
        ensures
            match res {
                Ok(block) => block@ == data@ && block_decoding(data@) is Some,
                Err(e) => block_decoding(data@) is None && e@ == corruption(
                    "bad block contents"@,
                ),
            },
    {
        let size: usize = data.len();
        if size < 4 {
            return Err(bad_block());
        }
        proof {
            assert(data@.subrange(size - 4, size as int) =~= data@.skip(size - 4));
        }
        let count: usize = decode_fixed_32(&data.as_slice()[size - 4..size]) as usize;
        if count < 1 || count > (size - 4) / 4 {
            return Err(bad_block());
        }
        let restart_offset: usize = size - 4 * (count + 1);
        if !check_entries(data.as_slice(), restart_offset, count) {
            return Err(bad_block());
        }
        Ok(Block { data, restart_offset, restarts_len: count })
    }
}

/// A place among the entries of a block: at one of them, or at none.
pub struct BlockIterator<'a, C: Comparator> {
    block: &'a Block,
    order: C,
    // Where the entry starts that the iterator is at; where the entries end,
    // when it is at none.
    current: usize,
    // Where that entry ends.
    end: usize,
    // Where its value starts.
    value_at: usize,
    // Its key.
    key: Vec<u8>,
    index: Ghost<int>,
}

impl Block {
    /// An iterator over the entries of the block, whose keys `order`
    /// compares. It starts at no entry.
    pub fn iter<C: Comparator>(&self, order: C) -> (it: BlockIterator<'_, C>)
        ensures
            it.wf(),
            it.entries() == self.entries(),
            it.comparator() == order,
            it.position() == self.entries().len(),
    {
        proof {
            use_type_invariant(self);
            self.lemma_well_formed();
        }
        BlockIterator {
            block: self,
            order,
            current: self.restart_offset,
            end: self.restart_offset,
            value_at: self.restart_offset,
            key: Vec::new(),
            index: Ghost(self.stored().len() as int),
        }
    }
}

impl<'a, C: Comparator> BlockIterator<'a, C> {
    /// The entries of the block.
    pub closed spec fn entries(&self) -> Seq<Entry> {
        self.block.entries()
    }

    /// The index of the entry that the iterator is at; the number of entries,
    /// when it is at none.
    pub closed spec fn position(&self) -> nat {
        self.index@ as nat
    }

    /// The order of the keys.
    pub closed spec fn comparator(&self) -> C {
        self.order
    }

    /// What holds of every iterator: it is at an entry of its block, or at
    /// none.
    pub closed spec fn wf(&self) -> bool {
        let stored = self.block.stored();
        &&& self.block.well_formed()
        &&& 0 <= self.index@ <= stored.len()
        &&& self.index@ == stored.len() ==> self.current == self.block.restart_offset
        &&& self.index@ < stored.len() ==> {
            let e = stored[self.index@];
            &&& self.current == e.start
            &&& self.end == e.end
            &&& self.value_at == e.end - e.value.len()
            &&& self.key@ == e.key
        }
    }

    /// Whether the iterator is at an entry.
    pub fn valid(&self) -> (v: bool)
        requires
            self.wf(),
        ensures
            v == (self.position() < self.entries().len()),
    {
        proof {
            self.block.lemma_well_formed();
            if self.index@ < self.block.stored().len() {
                self.block.lemma_entry_at(self.index@);
            }
        }
        self.current < self.block.restart_offset
    }

    /// The key of the entry that the iterator is at.
    pub fn key(&self) -> (k: &[u8])
        requires
            self.wf(),
            self.position() < self.entries().len(),
        ensures
            k@ == self.entries()[self.position() as int].key,
    {
        proof {
            self.block.lemma_well_formed();
        }
        self.key.as_slice()
    }

    /// The value of the entry that the iterator is at.
    pub fn value(&self) -> (v: &[u8])
        requires
            self.wf(),
            self.position() < self.entries().len(),
        ensures
            v@ == self.entries()[self.position() as int].value,
    {
        proof {
            self.block.lemma_well_formed();
            let e = self.block.stored()[self.index@];
            self.block.lemma_entry_at(self.index@);
            lemma_entry_parts(
                self.block.region(),
                e.start,
                key_before(self.block.stored(), Seq::empty(), self.index@),
            );
            assert(self.block.data@.subrange(self.value_at as int, self.end as int)
                =~= self.block.region().subrange(self.value_at as int, self.end as int));
        }
        let block: &Block = self.block;
        &block.data.as_slice()[self.value_at..self.end]
    }

    /// Moves to the entry of index `i`, which starts at offset `off` and
    /// decodes after the key that the iterator holds.
    #[verifier::rlimit(40)]
    fn parse_at(&mut self, off: usize, Ghost(i): Ghost<int>)
        requires
            old(self).block.well_formed(),
            0 <= i < old(self).block.stored().len(),
            old(self).block.stored()[i].start == off,
            entry_decoding(old(self).block.region(), off as int, old(self).key@) == Some(
                old(self).block.stored()[i],
            ),
        ensures
            final(self).wf(),
            final(self).index@ == i,
            final(self).block == old(self).block,
            final(self).order == old(self).order,
    {
        let block: &Block = self.block;
        let limit: usize = block.restart_offset;
        proof {
            block.lemma_well_formed();
            block.lemma_entry_at(i);
            lemma_entry_parts(block.region(), off as int, self.key@);
        }
        match decode_header(block.data.as_slice(), off, limit) {
            Some((shared, non_shared, value_len, h)) => {
                let key_at: usize = off + h;
                let value_at: usize = key_at + non_shared as usize;
                proof {
                    assert(block.data@.subrange(key_at as int, value_at as int)
                        =~= block.region().subrange(key_at as int, value_at as int));
                }
                self.key.truncate(shared as usize);
                self.key.extend_from_slice(&block.data.as_slice()[key_at..value_at]);
                assert(self.key@ =~= block.stored()[i].key);
                self.current = off;
                self.value_at = value_at;
                self.end = value_at + value_len as usize;
                self.index = Ghost(i);
            },
            None => {},
        }
    }

    /// Moves to no entry.
    fn leave(&mut self)
        requires
            old(self).block.well_formed(),
        ensures
            final(self).wf(),
            final(self).index@ == old(self).block.stored().len(),
            final(self).block == old(self).block,
            final(self).order == old(self).order,
    {
        self.current = self.block.restart_offset;
        self.index = Ghost(self.block.stored().len() as int);
    }

    /// Moves to the entry at which the restart point of index `j` stands.
    fn seek_to_restart(&mut self, j: usize)
        requires
            old(self).block.well_formed(),
            old(self).block.stored().len() > 0,
            j < old(self).block.restarts_len,
        ensures
            final(self).wf(),
            final(self).index@ == old(self).block.restart_entry(j as int),
            final(self).block == old(self).block,
            final(self).order == old(self).order,
    {
        let block: &Block = self.block;
        proof {
            block.lemma_well_formed();
            block.lemma_restart(j as int);
        }
        let off: usize = restart_at(block.data.as_slice(), block.restart_offset, j) as usize;
        self.key.clear();
        self.parse_at(off, Ghost(block.restart_entry(j as int)));
    }

    /// Moves to the first entry, if there is one.
    pub fn seek_to_first(&mut self)
        requires
            old(self).wf(),
        ensures
            final(self).wf(),
            final(self).entries() == old(self).entries(),
            final(self).comparator() == old(self).comparator(),
            final(self).position() == 0,
    {
        proof {
            self.block.lemma_well_formed();
        }
        if self.block.restart_offset == 0 {
            self.leave();
        } else {
            proof {
                self.block.lemma_restart(0);
            }
            self.seek_to_restart(0);
        }
    }

    /// Moves to the last entry, if there is one.
    #[verifier::rlimit(40)]
    pub fn seek_to_last(&mut self)
        requires
            old(self).wf(),
        ensures
            final(self).wf(),
            final(self).entries() == old(self).entries(),
            final(self).comparator() == old(self).comparator(),
            final(self).position() == (if old(self).entries().len() == 0 {
                0
            } else {
                old(self).entries().len() - 1
            }),
    {
        proof {
            self.block.lemma_well_formed();
        }
        if self.block.restart_offset == 0 {
            self.leave();
            return ;
        }
        let limit: usize = self.block.restart_offset;
        proof {
            self.block.lemma_restart(self.block.restarts_len - 1);
        }
        self.seek_to_restart(self.block.restarts_len - 1);
        proof {
            self.block.lemma_entry_at(self.index@);
        }
        while self.end < limit
            invariant
                self.wf(),
                self.block == old(self).block,
                self.order == old(self).order,
                limit == self.block.restart_offset,
                0 <= self.index@ < self.block.stored().len(),
                self.block.stored()[self.index@].end <= limit,
            decreases self.block.stored().len() - self.index@,
        {
            proof {
                self.block.lemma_entry_at(self.index@);
                self.block.lemma_entry_at(self.index@ + 1);
            }
            self.parse_at(self.end, Ghost(self.index@ + 1));
        }
        proof {
            self.block.lemma_entry_at(self.index@);
        }
    }

    /// Moves to the entry after the one that the iterator is at, or to none
    /// when that is the last.
    pub fn next(&mut self)
        requires
            old(self).wf(),
            old(self).position() < old(self).entries().len(),
        ensures
            final(self).wf(),
            final(self).entries() == old(self).entries(),
            final(self).comparator() == old(self).comparator(),
            final(self).position() == old(self).position() + 1,
    {
        proof {
            self.block.lemma_well_formed();
        }
        self.advance();
    }

    /// Moves one entry on.
    fn advance(&mut self)
        requires
            old(self).wf(),
            old(self).index@ < old(self).block.stored().len(),
        ensures
            final(self).wf(),
            final(self).block == old(self).block,
            final(self).order == old(self).order,
            final(self).index@ == old(self).index@ + 1,
    {
        proof {
            self.block.lemma_well_formed();
            self.block.lemma_entry_at(self.index@);
        }
        if self.end >= self.block.restart_offset {
            self.leave();
        } else {
            proof {
                self.block.lemma_entry_at(self.index@ + 1);
            }
            self.parse_at(self.end, Ghost(self.index@ + 1));
        }
    }

    /// Moves to the entry before the one that the iterator is at, or to none
    /// when that is the first.
    #[verifier::rlimit(40)]
    pub fn prev(&mut self)
        requires
            old(self).wf(),
            old(self).position() < old(self).entries().len(),
        ensures
            final(self).wf(),
            final(self).entries() == old(self).entries(),
            final(self).comparator() == old(self).comparator(),
            final(self).position() == (if old(self).position() == 0 {
                old(self).entries().len()
            } else {
                (old(self).position() - 1) as nat
            }),
    {
        let block: &Block = self.block;
        let original: usize = self.current;
        let ghost at = self.index@;
        proof {
            block.lemma_well_formed();
            block.lemma_entry_at(at);
        }
        if original == 0 {
            self.leave();
            return ;
        }
        // The last restart point before the entry.
        let mut j: usize = block.restarts_len - 1;
        proof {
            block.lemma_restart(0);
        }
        while restart_at(block.data.as_slice(), block.restart_offset, j) as usize >= original
            invariant
                block.well_formed(),
                block.stored().len() > 0,
                j < block.restarts_len,
                block.restart_offset + 4 * block.restarts_len + 4 == block.data@.len(),
                block.restarts()[0] == 0,
                original > 0,
            decreases j,
        {
            j -= 1;
        }
        proof {
            block.lemma_restart(j as int);
            let i = block.restart_entry(j as int);
            if i >= at {
                if i > at {
                    block.lemma_entries_follow(at, i);
                }
            }
        }
        self.seek_to_restart(j);
        while self.end < original
            invariant
                self.wf(),
                self.block == old(self).block,
                self.order == old(self).order,
                block == self.block,
                0 <= self.index@ < at < block.stored().len(),
                block.stored()[at].start == original,
            decreases at - self.index@,
        {
            proof {
                block.lemma_entry_at(self.index@);
                block.lemma_entry_at(self.index@ + 1);
                if self.index@ + 1 < at {
                    block.lemma_entries_follow(self.index@ + 1, at);
                }
            }
            self.parse_at(self.end, Ghost(self.index@ + 1));
        }
        proof {
            block.lemma_entry_at(self.index@);
            if self.index@ + 1 < at {
                block.lemma_entries_follow(self.index@ + 1, at);
            }
        }
    }

    /// Whether the iterator is at an entry whose key comes before `target`.
    fn at_key_before(&self, target: &[u8]) -> (before: bool)
        requires
            self.wf(),
        ensures
            before == (self.index@ < self.block.stored().len() && !self.order.le(
                target@,
                self.block.stored()[self.index@].key,
            )),
    {
        if !self.valid() {
            return false;
        }
        proof {
            self.block.lemma_well_formed();
        }
        match self.order.compare(self.key.as_slice(), target) {
            KeyOrder::Less => true,
            _ => false,
        }
    }

    /// Moves to the first entry whose key does not come before `target`, or
    /// to none when there is no such entry.
    ///
    /// The keys of the block are taken to be in the order of the iterator.
    /// Where they are not, the iterator still moves to an entry whose key
    /// does not come before `target`, or to none.
    #[verifier::rlimit(40)]
    pub fn seek(&mut self, target: &[u8])
        requires
            old(self).wf(),
        ensures
            final(self).wf(),
            final(self).entries() == old(self).entries(),
            final(self).comparator() == old(self).comparator(),
            final(self).position() < final(self).entries().len() ==> final(self).comparator().le(
                target@,
                final(self).entries()[final(self).position() as int].key,
            ),
            keys_in_order(final(self).comparator(), final(self).entries()) ==> forall|i: int|
                0 <= i < final(self).position() ==> !final(self).comparator().le(
                    target@,
                    #[trigger] final(self).entries()[i].key,
                ),
    {
        let block: &Block = self.block;
        proof {
            block.lemma_well_formed();
        }
        if block.restart_offset == 0 {
            self.leave();
            return ;
        }
        // The last restart point whose key comes before the target, or the
        // first where there is none.
        let mut left: usize = 0;
        let mut right: usize = block.restarts_len - 1;
        while left < right
            invariant
                block.well_formed(),
                block.stored().len() > 0,
                left <= right < block.restarts_len,
                left > 0 ==> !self.order.le(
                    target@,
                    block.stored()[block.restart_entry(left as int)].key,
                ),
            decreases right - left,
        {
            let mid: usize = left + (right - left + 1) / 2;
            match self.order.compare(block.restart_key(mid), target) {
                KeyOrder::Less => {
                    left = mid;
                },
                _ => {
                    right = mid - 1;
                },
            }
        }
        let ghost from = block.restart_entry(left as int);
        proof {
            block.lemma_restart(left as int);
        }
        self.seek_to_restart(left);
        let mut searching: bool = self.at_key_before(target);
        while searching
            invariant
                self.wf(),
                self.block == old(self).block,
                self.order == old(self).order,
                block == self.block,
                0 <= from <= self.index@ <= block.stored().len(),
                searching == (self.index@ < block.stored().len() && !self.order.le(
                    target@,
                    block.stored()[self.index@].key,
                )),
                forall|i: int|
                    from <= i < self.index@ ==> !self.order.le(
                        target@,
                        (#[trigger] block.stored()[i]).key,
                    ),
            decreases block.stored().len() - self.index@,
        {
            self.advance();
            searching = self.at_key_before(target);
        }
        proof {
            let order = self.order;
            let entries = block.entries();
            let stored = block.stored();
            assert forall|i: int| 0 <= i < stored.len() implies (#[trigger] entries[i]).key
                == stored[i].key by {}
            if keys_in_order(order, entries) {
                assert forall|i: int| 0 <= i < self.index@ implies !order.le(
                    target@,
                    #[trigger] entries[i].key,
                ) by {
                    if i < from {
                        assert(order.le(entries[i].key, entries[from].key));
                        if order.le(target@, entries[i].key) {
                            order.lemma_transitive(target@, entries[i].key, entries[from].key);
                        }
                        assert(!order.le(target@, stored[from].key));
                    } else {
                        assert(!order.le(target@, stored[i].key));
                    }
                }
            }
        }
    }
}

} // verus!
