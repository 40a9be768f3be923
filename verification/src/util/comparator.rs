//! The order of keys.

use vstd::prelude::*;

verus! {

/// How one key stands to another.
#[derive(Clone, Copy, Debug, PartialEq, Eq, Structural)]
pub enum KeyOrder {
    Less,
    Equal,
    Greater,
}

/// A total order of keys, in which two keys of different bytes may count as
/// equal.
pub trait Comparator {
    /// Whether `a` comes before `b` or counts as equal to it.
    spec fn le(&self, a: Seq<u8>, b: Seq<u8>) -> bool;

    /// Of any two keys, one comes before the other or they count as equal.
    proof fn lemma_total(&self, a: Seq<u8>, b: Seq<u8>)
        ensures
            self.le(a, b) || self.le(b, a),
    ;

    /// What comes before a key comes before all that the key comes before.
    proof fn lemma_transitive(&self, a: Seq<u8>, b: Seq<u8>, c: Seq<u8>)
        requires
            self.le(a, b),
            self.le(b, c),
        ensures
            self.le(a, c),
    ;

    /// Says how `a` stands to `b`.
    fn compare(&self, a: &[u8], b: &[u8]) -> (r: KeyOrder)
        ensures
            r == (if !self.le(b@, a@) {
                KeyOrder::Less
            } else if !self.le(a@, b@) {
                KeyOrder::Greater
            } else {
                KeyOrder::Equal
            }),
    ;

    /// The name of the order. A table written under one order must not be
    /// read under another.
    fn name(&self) -> &str;
}

/// Whether `a` comes before `b`, or is `b`, in the order of dictionaries: the
/// first byte in which they differ decides, and a sequence comes before all
/// that it starts.
pub open spec fn bytes_le(a: Seq<u8>, b: Seq<u8>) -> bool
    decreases a.len(),
{
    if a.len() == 0 {
        true
    } else if b.len() == 0 {
        false
    } else if a[0] != b[0] {
        a[0] < b[0]
    } else {
        bytes_le(a.drop_first(), b.drop_first())
    }
}

/// `bytes_le` is total.
pub proof fn lemma_bytes_le_total(a: Seq<u8>, b: Seq<u8>)
    ensures
        bytes_le(a, b) || bytes_le(b, a),
    decreases a.len(),
{
    if a.len() > 0 && b.len() > 0 && a[0] == b[0] {
        lemma_bytes_le_total(a.drop_first(), b.drop_first());
    }
}

/// `bytes_le` is transitive.
pub proof fn lemma_bytes_le_transitive(a: Seq<u8>, b: Seq<u8>, c: Seq<u8>)
    requires
        bytes_le(a, b),
        bytes_le(b, c),
    ensures
        bytes_le(a, c),
    decreases a.len(),
{
    if a.len() > 0 && a[0] == b[0] && b[0] == c[0] {
        lemma_bytes_le_transitive(a.drop_first(), b.drop_first(), c.drop_first());
    }
}

/// Where `a` and `b` agree in their first `i` bytes, what is left of them
/// decides their order.
proof fn lemma_bytes_le_skip(a: Seq<u8>, b: Seq<u8>, i: int)
    requires
        0 <= i <= a.len(),
        i <= b.len(),
        forall|j: int| 0 <= j < i ==> a[j] == b[j],
    ensures
        bytes_le(a, b) == bytes_le(a.skip(i), b.skip(i)),
    decreases i,
{
    if i == 0 {
        assert(a.skip(0) =~= a);
        assert(b.skip(0) =~= b);
    } else {
        assert(a[0] == b[0]);
        assert forall|j: int| 0 <= j < i - 1 implies a.drop_first()[j] == b.drop_first()[j] by {
            assert(a[j + 1] == b[j + 1]);
        }
        lemma_bytes_le_skip(a.drop_first(), b.drop_first(), i - 1);
        assert(a.drop_first().skip(i - 1) =~= a.skip(i));
        assert(b.drop_first().skip(i - 1) =~= b.skip(i));
    }
}

/// The order of dictionaries on the bytes of the keys.
#[derive(Clone, Copy, Debug)]
pub struct BytewiseComparator;

impl Comparator for BytewiseComparator {
    open spec fn le(&self, a: Seq<u8>, b: Seq<u8>) -> bool {
        bytes_le(a, b)
    }

    proof fn lemma_total(&self, a: Seq<u8>, b: Seq<u8>) {
        lemma_bytes_le_total(a, b);
    }

    proof fn lemma_transitive(&self, a: Seq<u8>, b: Seq<u8>, c: Seq<u8>) {
        lemma_bytes_le_transitive(a, b, c);
    }

    fn compare(&self, a: &[u8], b: &[u8]) -> (r: KeyOrder) {
        let mut i: usize = 0;
        while i < a.len() && i < b.len()
            invariant
                i <= a.len(),
                i <= b.len(),
                forall|j: int| 0 <= j < i ==> a@[j] == b@[j],
            decreases a.len() - i,
        {
            if a[i] != b[i] {
                proof {
                    lemma_bytes_le_skip(a@, b@, i as int);
                    lemma_bytes_le_skip(b@, a@, i as int);
                }
                if a[i] < b[i] {
                    return KeyOrder::Less;
                } else {
                    return KeyOrder::Greater;
                }
            }
            i += 1;
        }
        proof {
            lemma_bytes_le_skip(a@, b@, i as int);
            lemma_bytes_le_skip(b@, a@, i as int);
        }
        if a.len() < b.len() {
            KeyOrder::Less
        } else if a.len() > b.len() {
            KeyOrder::Greater
        } else {
            KeyOrder::Equal
        }
    }

    fn name(&self) -> (name: &str)
        ensures
            name@ == "leveldb.BytewiseComparator"@,
    {
        "leveldb.BytewiseComparator"
    }
}

} // verus!
