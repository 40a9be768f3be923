//! What a memtable holds, and what a read sees of it.

use crate::db::format::{packed, ValueType, MAX_KEY_SEQUENCE, VALUE_TYPE_FOR_SEEK};
use crate::util::comparator::Comparator;
use vstd::prelude::*;

verus! {

/// A write: a user key is given a value, or taken away.
pub struct Write {
    pub user_key: Seq<u8>,
    pub seq: u64,
    pub kind: ValueType,
    pub value: Seq<u8>,
}

/// Whether the write `a` comes before the write `b` in a memtable: where its
/// user key comes first, or, the user keys counting as equal, where it is
/// the later write.
pub open spec fn write_before<C: Comparator>(user: C, a: Write, b: Write) -> bool {
    !user.le(b.user_key, a.user_key) || (user.le(a.user_key, b.user_key) && packed(a.seq, a.kind)
        > packed(b.seq, b.kind))
}

/// Whether each write comes before all that follow it.
#[verifier::opaque]
pub open spec fn writes_in_order<C: Comparator>(user: C, writes: Seq<Write>) -> bool {
    forall|i: int, j: int|
        0 <= i < j < writes.len() ==> write_before(user, #[trigger] writes[i], #[trigger] writes[j])
}

/// Whether a read of `user_key` as of the sequence number `snapshot` may see
/// the write `w`: it is a write to that key, and not later than `snapshot`.
pub open spec fn visible<C: Comparator>(user: C, w: Write, user_key: Seq<u8>, snapshot: u64) -> bool {
    user.le(w.user_key, user_key) && user.le(user_key, w.user_key) && w.seq <= snapshot
}

/// Whether the write of index `i` is the one that a read of `user_key` as of
/// `snapshot` sees: the latest that it may see.
#[verifier::opaque]
pub open spec fn seen<C: Comparator>(
    user: C,
    writes: Seq<Write>,
    i: int,
    user_key: Seq<u8>,
    snapshot: u64,
) -> bool {
    &&& 0 <= i < writes.len()
    &&& visible(user, writes[i], user_key, snapshot)
    &&& forall|j: int|
        0 <= j < writes.len() && visible(user, #[trigger] writes[j], user_key, snapshot)
            ==> writes[j].seq <= writes[i].seq
}

/// A write that comes before a write that comes before a third comes before
/// the third.
pub(crate) proof fn lemma_before_transitive<C: Comparator>(user: C, a: Write, b: Write, c: Write)
    requires
        write_before(user, a, b),
        write_before(user, b, c),
    ensures
        write_before(user, a, c),
{
    user.lemma_total(a.user_key, b.user_key);
    user.lemma_total(b.user_key, c.user_key);
    user.lemma_total(a.user_key, c.user_key);
    if user.le(c.user_key, a.user_key) {
        if user.le(b.user_key, c.user_key) {
            user.lemma_transitive(b.user_key, c.user_key, a.user_key);
        }
        if user.le(a.user_key, b.user_key) {
            user.lemma_transitive(c.user_key, a.user_key, b.user_key);
        }
    }
    if user.le(a.user_key, b.user_key) && user.le(b.user_key, c.user_key) {
        user.lemma_transitive(a.user_key, b.user_key, c.user_key);
    }
}

/// Writes stay in order when a write is put between those that come before
/// it and those that it comes before.
pub(crate) proof fn lemma_insert_keeps_order<C: Comparator>(user: C, writes: Seq<Write>, p: int, w: Write)
    requires
        writes_in_order(user, writes),
        0 <= p <= writes.len(),
        forall|i: int| 0 <= i < p ==> write_before(user, #[trigger] writes[i], w),
        p < writes.len() ==> write_before(user, w, writes[p]),
    ensures
        writes_in_order(user, writes.insert(p, w)),
{
    reveal(writes_in_order);
    let after = writes.insert(p, w);
    assert forall|i: int, j: int| 0 <= i < j < after.len() implies write_before(
        user,
        #[trigger] after[i],
        #[trigger] after[j],
    ) by {
        if j < p {
            assert(after[i] == writes[i] && after[j] == writes[j]);
        } else if j == p {
            assert(after[i] == writes[i]);
        } else if i == p {
            assert(after[j] == writes[j - 1]);
            if j - 1 > p {
                assert(write_before(user, writes[p], writes[j - 1]));
                lemma_before_transitive(user, w, writes[p], writes[j - 1]);
            }
        } else if i < p {
            assert(after[i] == writes[i] && after[j] == writes[j - 1]);
        } else {
            assert(after[i] == writes[i - 1] && after[j] == writes[j - 1]);
        }
    }
}

/// What a read looks for, as a write: one to its key, of its sequence number
/// and of the kind that comes first.
pub open spec fn probe(user_key: Seq<u8>, snapshot: u64) -> Write {
    Write { user_key, seq: snapshot, kind: VALUE_TYPE_FOR_SEEK, value: Seq::empty() }
}

/// Whether the user key of `w` counts as equal to `user_key`.
pub open spec fn same_key<C: Comparator>(user: C, w: Write, user_key: Seq<u8>) -> bool {
    user.le(w.user_key, user_key) && user.le(user_key, w.user_key)
}

/// Where the writes before index `at` come before what a read looks for and
/// the writes from `at` on do not, the read sees the write at `at`, if that
/// is a write to its key, and else none.
#[verifier::rlimit(40)]
pub(crate) proof fn lemma_first_not_before<C: Comparator>(
    user: C,
    writes: Seq<Write>,
    at: int,
    user_key: Seq<u8>,
    snapshot: u64,
)
    requires
        writes_in_order(user, writes),
        0 <= at <= writes.len(),
        snapshot <= MAX_KEY_SEQUENCE,
        forall|i: int| 0 <= i < writes.len() ==> (#[trigger] writes[i]).seq <= MAX_KEY_SEQUENCE,
        forall|i: int|
            0 <= i < at ==> write_before(user, #[trigger] writes[i], probe(user_key, snapshot)),
        at < writes.len() ==> !write_before(user, writes[at], probe(user_key, snapshot)),
    ensures
        at < writes.len() && same_key(user, writes[at], user_key) ==> seen(
            user,
            writes,
            at,
            user_key,
            snapshot,
        ),
        !(at < writes.len() && same_key(user, writes[at], user_key)) ==> forall|i: int|
            0 <= i < writes.len() ==> !visible(user, #[trigger] writes[i], user_key, snapshot),
{
    reveal(writes_in_order);
    reveal(seen);
    let target = probe(user_key, snapshot);
    assert forall|i: int| 0 <= i < at implies !visible(
        user,
        #[trigger] writes[i],
        user_key,
        snapshot,
    ) by {
        assert(write_before(user, writes[i], target));
    }
    if at < writes.len() {
        let found = writes[at];
        user.lemma_total(found.user_key, user_key);
        if same_key(user, found, user_key) {
            assert forall|j: int|
                0 <= j < writes.len() && visible(
                    user,
                    #[trigger] writes[j],
                    user_key,
                    snapshot,
                ) implies writes[j].seq <= found.seq by {
                if j > at {
                    assert(write_before(user, found, writes[j]));
                    user.lemma_transitive(writes[j].user_key, user_key, found.user_key);
                }
            }
        } else {
            assert forall|i: int| at <= i < writes.len() implies !visible(
                user,
                #[trigger] writes[i],
                user_key,
                snapshot,
            ) by {
                if visible(user, writes[i], user_key, snapshot) {
                    if i > at {
                        assert(write_before(user, found, writes[i]));
                        user.lemma_total(found.user_key, writes[i].user_key);
                        user.lemma_transitive(found.user_key, writes[i].user_key, user_key);
                    }
                }
            }
        }
    }
}

/// A read sees one write at most, where no two writes have one sequence
/// number.
pub proof fn lemma_seen_is_one<C: Comparator>(
    user: C,
    writes: Seq<Write>,
    i: int,
    j: int,
    user_key: Seq<u8>,
    snapshot: u64,
)
    requires
        forall|a: int, b: int|
            0 <= a < b < writes.len() ==> (#[trigger] writes[a]).seq != (#[trigger] writes[b]).seq,
        seen(user, writes, i, user_key, snapshot),
        seen(user, writes, j, user_key, snapshot),
    ensures
        i == j,
{
    reveal(seen);
    assert(writes[i].seq <= writes[j].seq);
    assert(writes[j].seq <= writes[i].seq);
}

/// A write is what a read of its key sees that is not earlier than the
/// write, as long as no later write has been added: of a key that was given
/// a value the read finds the value, and of a key that was taken away that
/// it was taken away.
pub proof fn lemma_latest_write_is_seen<C: Comparator>(
    user: C,
    writes: Seq<Write>,
    p: int,
    w: Write,
    snapshot: u64,
)
    requires
        0 <= p <= writes.len(),
        forall|i: int| 0 <= i < writes.len() ==> (#[trigger] writes[i]).seq < w.seq,
        w.seq <= snapshot,
    ensures
        seen(user, writes.insert(p, w), p, w.user_key, snapshot),
{
    reveal(seen);
    let after = writes.insert(p, w);
    user.lemma_total(w.user_key, w.user_key);
    assert forall|j: int|
        0 <= j < after.len() && visible(user, #[trigger] after[j], w.user_key, snapshot) implies after[j].seq
        <= after[p].seq by {
        if j < p {
            assert(after[j] == writes[j]);
        } else if j > p {
            assert(after[j] == writes[j - 1]);
        }
    }
}

/// A read as of a sequence number sees what it saw before a later write was
/// added.
#[verifier::rlimit(40)]
pub proof fn lemma_later_write_is_not_seen<C: Comparator>(
    user: C,
    writes: Seq<Write>,
    p: int,
    w: Write,
    user_key: Seq<u8>,
    snapshot: u64,
)
    requires
        0 <= p <= writes.len(),
        snapshot < w.seq,
    ensures
        !seen(user, writes.insert(p, w), p, user_key, snapshot),
        forall|i: int|
            seen(user, writes, i, user_key, snapshot) <==> seen(
                user,
                writes.insert(p, w),
                if i < p {
                    i
                } else {
                    i + 1
                },
                user_key,
                snapshot,
            ),
        (forall|i: int|
            0 <= i < writes.len() ==> !visible(user, #[trigger] writes[i], user_key, snapshot))
            <==> (forall|i: int|
            0 <= i < writes.len() + 1 ==> !visible(
                user,
                #[trigger] writes.insert(p, w)[i],
                user_key,
                snapshot,
            )),
{
    reveal(seen);
    let after = writes.insert(p, w);
    let shift = |i: int|
        if i < p {
            i
        } else {
            i + 1
        };
    assert forall|i: int| 0 <= i < writes.len() implies writes[i] == #[trigger] after[shift(i)] by {}
    assert forall|i: int| seen(user, writes, i, user_key, snapshot) implies seen(
        user,
        after,
        shift(i),
        user_key,
        snapshot,
    ) by {
        assert(writes[i] == after[shift(i)]);
        assert forall|j: int|
            0 <= j < after.len() && visible(
                user,
                #[trigger] after[j],
                user_key,
                snapshot,
            ) implies after[j].seq <= after[shift(i)].seq by {
            if j < p {
                assert(after[j] == writes[j]);
            } else if j > p {
                assert(after[j] == writes[j - 1]);
            }
        }
    }
    assert forall|i: int| seen(user, after, shift(i), user_key, snapshot) implies seen(
        user,
        writes,
        i,
        user_key,
        snapshot,
    ) by {
        assert(writes[i] == after[shift(i)]);
        assert forall|j: int|
            0 <= j < writes.len() && visible(
                user,
                #[trigger] writes[j],
                user_key,
                snapshot,
            ) implies writes[j].seq <= writes[i].seq by {
            assert(writes[j] == after[shift(j)]);
        }
    }
    if forall|i: int|
        0 <= i < writes.len() ==> !visible(user, #[trigger] writes[i], user_key, snapshot) {
        assert forall|i: int| 0 <= i < writes.len() + 1 implies !visible(
            user,
            #[trigger] after[i],
            user_key,
            snapshot,
        ) by {
            if i < p {
                assert(after[i] == writes[i]);
            } else if i > p {
                assert(after[i] == writes[i - 1]);
            }
        }
    }
    if forall|i: int|
        0 <= i < writes.len() + 1 ==> !visible(user, #[trigger] after[i], user_key, snapshot) {
        assert forall|i: int| 0 <= i < writes.len() implies !visible(
            user,
            #[trigger] writes[i],
            user_key,
            snapshot,
        ) by {
            assert(writes[i] == after[shift(i)]);
        }
    }
}

/// Of writes in order, each comes before those that follow it.
pub(crate) proof fn lemma_in_order_at<C: Comparator>(user: C, writes: Seq<Write>, i: int, j: int)
    requires
        writes_in_order(user, writes),
        0 <= i < j < writes.len(),
    ensures
        write_before(user, writes[i], writes[j]),
{
    reveal(writes_in_order);
}

/// A write to a key comes before the earlier writes to that key, and the
/// user key of a write does not come after that of a write that follows it.
pub(crate) proof fn lemma_order_of_keys<C: Comparator>(user: C, writes: Seq<Write>, i: int, j: int)
    requires
        writes_in_order(user, writes),
        0 <= i < j < writes.len(),
    ensures
        user.le(writes[i].user_key, writes[j].user_key),
        user.le(writes[j].user_key, writes[i].user_key) ==> writes[i].seq >= writes[j].seq,
{
    reveal(writes_in_order);
    assert(write_before(user, writes[i], writes[j]));
    user.lemma_total(writes[i].user_key, writes[j].user_key);
}

/// The first write to a key that a read may see, in the order of the
/// memtable, is the one that the read sees.
pub(crate) proof fn lemma_first_visible_is_seen<C: Comparator>(
    user: C,
    writes: Seq<Write>,
    i: int,
    snapshot: u64,
)
    requires
        writes_in_order(user, writes),
        0 <= i < writes.len(),
        writes[i].seq <= snapshot,
        forall|j: int|
            0 <= j < i ==> !visible(user, #[trigger] writes[j], writes[i].user_key, snapshot),
    ensures
        seen(user, writes, i, writes[i].user_key, snapshot),
{
    reveal(seen);
    user.lemma_total(writes[i].user_key, writes[i].user_key);
    assert forall|j: int|
        0 <= j < writes.len() && visible(
            user,
            #[trigger] writes[j],
            writes[i].user_key,
            snapshot,
        ) implies writes[j].seq <= writes[i].seq by {
        if j > i {
            lemma_order_of_keys(user, writes, i, j);
        }
    }
}

/// Whether the write of index `e` is what a read of its key as of `snapshot`
/// sees, and gives the key a value.
pub open spec fn live<C: Comparator>(user: C, writes: Seq<Write>, e: int, snapshot: u64) -> bool {
    seen(user, writes, e, writes[e].user_key, snapshot) && writes[e].kind == ValueType::Value
}

/// Of the first `n` writes, those that are live as of `snapshot`, in the
/// order of the memtable: the key and the value of each.
pub open spec fn live_pairs<C: Comparator>(user: C, writes: Seq<Write>, snapshot: u64, n: nat) -> Seq<
    (Seq<u8>, Seq<u8>),
>
    decreases n,
{
    if n == 0 {
        Seq::empty()
    } else {
        let before = live_pairs(user, writes, snapshot, (n - 1) as nat);
        if live(user, writes, n - 1, snapshot) {
            before.push((writes[n - 1].user_key, writes[n - 1].value))
        } else {
            before
        }
    }
}

/// The keys of the live writes before index `n` come before the key of a
/// live write at `n` or after it.
#[verifier::rlimit(40)]
pub(crate) proof fn lemma_live_pairs_before<C: Comparator>(
    user: C,
    writes: Seq<Write>,
    snapshot: u64,
    n: nat,
    e: int,
)
    requires
        writes_in_order(user, writes),
        forall|a: int, b: int|
            0 <= a < b < writes.len() ==> (#[trigger] writes[a]).seq != (#[trigger] writes[b]).seq,
        n <= e < writes.len(),
        live(user, writes, e, snapshot),
    ensures
        forall|k: int|
            0 <= k < live_pairs(user, writes, snapshot, n).len() ==> !user.le(
                writes[e].user_key,
                (#[trigger] live_pairs(user, writes, snapshot, n)[k]).0,
            ),
    decreases n,
{
    reveal(seen);
    if n > 0 {
        lemma_live_pairs_before(user, writes, snapshot, (n - 1) as nat, e);
        let before = live_pairs(user, writes, snapshot, (n - 1) as nat);
        let all = live_pairs(user, writes, snapshot, n);
        if live(user, writes, n - 1, snapshot) {
            lemma_order_of_keys(user, writes, n - 1, e);
            // Were the two keys to count as equal, a read of them would see
            // both writes.
            if user.le(writes[e].user_key, writes[n - 1].user_key) {
                assert(visible(user, writes[e], writes[n - 1].user_key, snapshot));
                assert(visible(user, writes[n - 1], writes[e].user_key, snapshot));
            }
            assert forall|k: int| 0 <= k < all.len() implies !user.le(
                writes[e].user_key,
                (#[trigger] all[k]).0,
            ) by {
                if k < before.len() {
                    assert(all[k] == before[k]);
                }
            }
        }
    }
}

/// The keys of the live writes are in order: each comes before those after
/// it, and none counts as equal to another.
pub proof fn lemma_live_pairs_in_order<C: Comparator>(
    user: C,
    writes: Seq<Write>,
    snapshot: u64,
    n: nat,
)
    requires
        writes_in_order(user, writes),
        forall|a: int, b: int|
            0 <= a < b < writes.len() ==> (#[trigger] writes[a]).seq != (#[trigger] writes[b]).seq,
        n <= writes.len(),
    ensures
        forall|a: int, b: int|
            0 <= a < b < live_pairs(user, writes, snapshot, n).len() ==> !user.le(
                (#[trigger] live_pairs(user, writes, snapshot, n)[b]).0,
                (#[trigger] live_pairs(user, writes, snapshot, n)[a]).0,
            ),
    decreases n,
{
    if n > 0 {
        lemma_live_pairs_in_order(user, writes, snapshot, (n - 1) as nat);
        let before = live_pairs(user, writes, snapshot, (n - 1) as nat);
        let all = live_pairs(user, writes, snapshot, n);
        if live(user, writes, n - 1, snapshot) {
            lemma_live_pairs_before(user, writes, snapshot, (n - 1) as nat, n - 1);
            assert forall|a: int, b: int| 0 <= a < b < all.len() implies !user.le(
                (#[trigger] all[b]).0,
                (#[trigger] all[a]).0,
            ) by {
                assert(all[a] == before[a]);
                if b < before.len() {
                    assert(all[b] == before[b]);
                }
            }
        }
    }
}

/// What is known while the writes are gone through up to index `i`: the
/// last write that a read sees was that of index `last`, and what a read may
/// see of a key before `i`, it sees at or before `last`.
#[verifier::opaque]
pub(crate) closed spec fn scanned<C: Comparator>(
    user: C,
    writes: Seq<Write>,
    snapshot: u64,
    i: int,
    last: Option<int>,
) -> bool {
    &&& 0 <= i <= writes.len()
    &&& last matches Some(d) ==> 0 <= d < i && seen(user, writes, d, writes[d].user_key, snapshot)
    &&& forall|j: int|
        0 <= j < i && (#[trigger] writes[j]).seq <= snapshot ==> last is Some && covered(
            user,
            writes,
            snapshot,
            last->0,
            writes[j].user_key,
        )
}

/// Whether a read of `user_key` sees a write at or before index `d`.
#[verifier::opaque]
pub(crate) closed spec fn covered<C: Comparator>(
    user: C,
    writes: Seq<Write>,
    snapshot: u64,
    d: int,
    user_key: Seq<u8>,
) -> bool {
    exists|e: int| 0 <= e <= d && #[trigger] seen(user, writes, e, user_key, snapshot)
}

/// A write that a read as of `snapshot` may not see, or that is an earlier
/// write to the key of the write seen last, is not what a read of its key
/// sees.
#[verifier::rlimit(40)]
pub(crate) proof fn lemma_scan_passes<C: Comparator>(
    user: C,
    writes: Seq<Write>,
    snapshot: u64,
    i: int,
    last: Option<int>,
)
    requires
        writes_in_order(user, writes),
        forall|a: int, b: int|
            0 <= a < b < writes.len() ==> (#[trigger] writes[a]).seq != (#[trigger] writes[b]).seq,
        scanned(user, writes, snapshot, i, last),
        i < writes.len(),
        writes[i].seq > snapshot || (last is Some && same_key(
            user,
            writes[last->0],
            writes[i].user_key,
        )),
    ensures
        !seen(user, writes, i, writes[i].user_key, snapshot),
        scanned(user, writes, snapshot, i + 1, last),
{
    reveal(seen);
    reveal(scanned);
    reveal(covered);
    let w = writes[i];
    user.lemma_total(w.user_key, w.user_key);
    if w.seq <= snapshot {
        let d = last->0;
        lemma_order_of_keys(user, writes, d, i);
        assert(visible(user, writes[d], w.user_key, snapshot));
        assert forall|j: int|
            0 <= j < writes.len() && visible(
                user,
                #[trigger] writes[j],
                w.user_key,
                snapshot,
            ) implies writes[j].seq <= writes[d].seq by {
            user.lemma_transitive(writes[j].user_key, w.user_key, writes[d].user_key);
            user.lemma_transitive(writes[d].user_key, w.user_key, writes[j].user_key);
        }
        assert(seen(user, writes, d, w.user_key, snapshot));
    }
}

/// What a read sees is a write that it may see.
pub proof fn lemma_seen_is_visible<C: Comparator>(
    user: C,
    writes: Seq<Write>,
    e: int,
    user_key: Seq<u8>,
    snapshot: u64,
)
    requires
        seen(user, writes, e, user_key, snapshot),
    ensures
        0 <= e < writes.len(),
        visible(user, writes[e], user_key, snapshot),
{
    reveal(seen);
}

/// A key that lies between two keys that count as equal counts as equal to
/// them.
pub(crate) proof fn lemma_key_between<C: Comparator>(user: C, low: Seq<u8>, mid: Seq<u8>, high: Seq<u8>)
    requires
        user.le(low, mid),
        user.le(mid, high),
        user.le(high, low),
    ensures
        user.le(high, mid),
{
    user.lemma_transitive(high, low, mid);
}

/// No write before index `i` is one that a read of the key of the write at
/// `i` may see, where that key is not the key of the write seen last.
#[verifier::rlimit(40)]
pub(crate) proof fn lemma_scan_finds_none_before<C: Comparator>(
    user: C,
    writes: Seq<Write>,
    snapshot: u64,
    i: int,
    last: Option<int>,
    j: int,
)
    requires
        writes_in_order(user, writes),
        scanned(user, writes, snapshot, i, last),
        i < writes.len(),
        last is Some ==> !same_key(user, writes[last->0], writes[i].user_key),
        0 <= j < i,
    ensures
        !visible(user, writes[j], writes[i].user_key, snapshot),
{
    let ki = writes[i].user_key;
    let kj = writes[j].user_key;
    if visible(user, writes[j], ki, snapshot) {
        assert(last is Some && covered(user, writes, snapshot, last->0, kj)) by {
            reveal(scanned);
        }
        let d = last->0;
        assert(0 <= d < i) by {
            reveal(scanned);
        }
        let e = choose|e: int| 0 <= e <= d && #[trigger] seen(user, writes, e, kj, snapshot);
        assert(0 <= e <= d && seen(user, writes, e, kj, snapshot)) by {
            reveal(covered);
        }
        lemma_seen_is_visible(user, writes, e, kj, snapshot);
        let ke = writes[e].user_key;
        let kd = writes[d].user_key;
        // The keys at `e`, `j` and `i` count as equal, and that at `d` lies
        // between them.
        user.lemma_transitive(ki, kj, ke);
        lemma_order_of_keys(user, writes, d, i);
        if e < d {
            lemma_order_of_keys(user, writes, e, d);
        } else {
            user.lemma_total(ke, kd);
        }
        lemma_key_between(user, ke, kd, ki);
    }
}

/// What a read sees at or before an index, it sees at or before a later
/// index.
pub(crate) proof fn lemma_covered_later<C: Comparator>(
    user: C,
    writes: Seq<Write>,
    snapshot: u64,
    d: int,
    later: int,
    user_key: Seq<u8>,
)
    requires
        covered(user, writes, snapshot, d, user_key),
        d <= later,
    ensures
        covered(user, writes, snapshot, later, user_key),
{
    reveal(covered);
    let e = choose|e: int| 0 <= e <= d && #[trigger] seen(user, writes, e, user_key, snapshot);
    assert(0 <= e <= later && seen(user, writes, e, user_key, snapshot));
}

/// A write that a read may see, to another key than the write seen last, is
/// the one that a read of its key sees.
#[verifier::rlimit(40)]
pub(crate) proof fn lemma_scan_takes<C: Comparator>(
    user: C,
    writes: Seq<Write>,
    snapshot: u64,
    i: int,
    last: Option<int>,
)
    requires
        writes_in_order(user, writes),
        scanned(user, writes, snapshot, i, last),
        i < writes.len(),
        writes[i].seq <= snapshot,
        last is Some ==> !same_key(user, writes[last->0], writes[i].user_key),
    ensures
        seen(user, writes, i, writes[i].user_key, snapshot),
        scanned(user, writes, snapshot, i + 1, Some(i)),
{
    reveal(scanned);
    reveal(covered);
    let w = writes[i];
    assert forall|j: int| 0 <= j < i implies !visible(
        user,
        #[trigger] writes[j],
        w.user_key,
        snapshot,
    ) by {
        lemma_scan_finds_none_before(user, writes, snapshot, i, last, j);
    }
    lemma_first_visible_is_seen(user, writes, i, snapshot);
    assert(covered(user, writes, snapshot, i, w.user_key));
    assert forall|j: int| 0 <= j < i + 1 && (#[trigger] writes[j]).seq <= snapshot implies covered(
        user,
        writes,
        snapshot,
        i,
        writes[j].user_key,
    ) by {
        if j < i {
            lemma_covered_later(user, writes, snapshot, last->0, i, writes[j].user_key);
        }
    }
}

/// Before any write has been gone through, nothing is known.
pub(crate) proof fn lemma_scan_starts<C: Comparator>(user: C, writes: Seq<Write>, snapshot: u64)
    ensures
        scanned(user, writes, snapshot, 0, None),
        writes_in_order(user, Seq::<Write>::empty()),
{
    reveal(scanned);
    reveal(writes_in_order);
}

} // verus!
