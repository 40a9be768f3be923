//! Internal keys.
//!
//! Every write has a sequence number, and later writes have higher ones. The
//! store keeps a write under an internal key: the key that the user gave,
//! followed by eight bytes that hold the sequence number and the kind of the
//! write. They hold the number `sequence * 256 + kind` in little-endian byte
//! order, so that the first of them is the kind and the other seven are the
//! sequence number.
//!
//! Internal keys are ordered by their user keys, and those of one user key
//! by their sequence numbers, the highest first: a read finds the latest
//! write first.

use crate::util::coding::{
    decode_fixed_64, fixed64_decoding, fixed64_encoding, lemma_fixed64_round_trip, put_fixed_64,
};
use crate::util::varint::{varint_encoding, VarintU32};
use crate::util::comparator::{Comparator, KeyOrder};
use vstd::prelude::*;

verus! {

/// The kind of a write.
#[derive(Clone, Copy, Debug, PartialEq, Eq, Structural)]
pub enum ValueType {
    /// The key is taken away.
    Deletion,
    /// The key is given a value.
    Value,
}

/// The highest sequence number: seven bytes hold it.
pub const MAX_KEY_SEQUENCE: u64 = 0x00ff_ffff_ffff_ffff;

/// The kind that a read asks for: the one that comes first among the writes
/// of one sequence number.
pub const VALUE_TYPE_FOR_SEEK: ValueType = ValueType::Value;

/// The length of what follows the user key in an internal key.
pub const INTERNAL_KEY_TAIL: usize = 8;

impl ValueType {
    /// The byte that stands for the kind.
    pub open spec fn tag_of(self) -> u8 {
        match self {
            ValueType::Deletion => 0,
            ValueType::Value => 1,
        }
    }

    /// The kind that the byte `tag` stands for, if it stands for one.
    pub open spec fn of_tag(tag: u8) -> Option<ValueType> {
        if tag == 0 {
            Some(ValueType::Deletion)
        } else if tag == 1 {
            Some(ValueType::Value)
        } else {
            None
        }
    }

    /// Returns the byte that stands for the kind.
    pub fn tag(self) -> (tag: u8)
        ensures
            tag == self.tag_of(),
    {
        match self {
            ValueType::Deletion => 0,
            ValueType::Value => 1,
        }
    }

    /// Returns the kind that `tag` stands for, if it stands for one.
    pub fn from_tag(tag: u8) -> (found: Option<ValueType>)
        ensures
            found == Self::of_tag(tag),
    {
        if tag == 0 {
            Some(ValueType::Deletion)
        } else if tag == 1 {
            Some(ValueType::Value)
        } else {
            None
        }
    }
}

/// The number that the last eight bytes of an internal key hold for a write
/// of the sequence number `seq` and the kind `kind`.
pub open spec fn packed(seq: u64, kind: ValueType) -> nat {
    (seq * 256 + kind.tag_of()) as nat
}

/// The internal key of a write.
pub open spec fn internal_key_encoding(user_key: Seq<u8>, seq: u64, kind: ValueType) -> Seq<u8> {
    user_key + fixed64_encoding(packed(seq, kind) as u64)
}

/// The user key of an internal key: all but its last eight bytes. Of bytes
/// that are too short for an internal key, all of them.
pub open spec fn user_key_of(key: Seq<u8>) -> Seq<u8> {
    if key.len() >= INTERNAL_KEY_TAIL {
        key.take(key.len() - INTERNAL_KEY_TAIL)
    } else {
        key
    }
}

/// The number that the last eight bytes of an internal key hold. Zero, for
/// bytes that are too short for an internal key.
pub open spec fn tail_of(key: Seq<u8>) -> nat {
    if key.len() >= INTERNAL_KEY_TAIL {
        fixed64_decoding(key.skip(key.len() - INTERNAL_KEY_TAIL))
    } else {
        0
    }
}

/// The sequence number of an internal key.
pub open spec fn sequence_of(key: Seq<u8>) -> nat {
    tail_of(key) / 256
}

/// The kind of an internal key, if its byte stands for one.
pub open spec fn kind_of(key: Seq<u8>) -> Option<ValueType> {
    ValueType::of_tag((tail_of(key) % 256) as u8)
}

/// Whether `key` is the internal key of a write.
pub open spec fn is_internal_key(key: Seq<u8>) -> bool {
    key.len() >= INTERNAL_KEY_TAIL && kind_of(key) is Some
}

/// The parts of the internal key of a write are those of the write.
pub proof fn lemma_internal_key_parts(user_key: Seq<u8>, seq: u64, kind: ValueType)
    requires
        seq <= MAX_KEY_SEQUENCE,
    ensures
        is_internal_key(internal_key_encoding(user_key, seq, kind)),
        user_key_of(internal_key_encoding(user_key, seq, kind)) == user_key,
        tail_of(internal_key_encoding(user_key, seq, kind)) == packed(seq, kind),
        sequence_of(internal_key_encoding(user_key, seq, kind)) == seq,
        kind_of(internal_key_encoding(user_key, seq, kind)) == Some(kind),
{
    let tail = fixed64_encoding(packed(seq, kind) as u64);
    let key = internal_key_encoding(user_key, seq, kind);
    lemma_fixed64_round_trip(packed(seq, kind) as u64, Seq::empty());
    assert(key.skip(key.len() - INTERNAL_KEY_TAIL) =~= tail + Seq::<u8>::empty());
    assert(key.take(key.len() - INTERNAL_KEY_TAIL) =~= user_key);
}

/// A write as its internal key tells it.
#[derive(Debug)]
pub struct ParsedInternalKey {
    pub user_key: Vec<u8>,
    pub seq: u64,
    pub value_type: ValueType,
}

impl ParsedInternalKey {
    pub fn new(user_key: Vec<u8>, seq: u64, value_type: ValueType) -> (parsed: Self)
        ensures
            parsed.user_key == user_key,
            parsed.seq == seq,
            parsed.value_type == value_type,
    {
        Self { user_key, seq, value_type }
    }

    /// Returns the internal key.
    pub fn encode(&self) -> (key: Vec<u8>)
        requires
            self.seq <= MAX_KEY_SEQUENCE,
        ensures
            key@ == internal_key_encoding(self.user_key@, self.seq, self.value_type),
    {
        Self::encode_parts(self.user_key.as_slice(), self.seq, self.value_type)
    }

    /// Returns the internal key of a write to `user_key` of the sequence
    /// number `seq` and the kind `value_type`.
    pub fn encode_parts(user_key: &[u8], seq: u64, value_type: ValueType) -> (key: Vec<u8>)
        requires
            seq <= MAX_KEY_SEQUENCE,
        ensures
            key@ == internal_key_encoding(user_key@, seq, value_type),
    {
        let mut key: Vec<u8> = Vec::new();
        key.extend_from_slice(user_key);
        put_fixed_64(&mut key, seq * 256 + value_type.tag() as u64);
        assert(key@ =~= internal_key_encoding(user_key@, seq, value_type));
        key
    }

    /// Takes the internal key `key` apart. `None` where `key` is none: where
    /// it is shorter than eight bytes, or its kind is none that is known.
    pub fn decode_from(key: &[u8]) -> (res: Option<Self>)
        ensures
            match res {
                Some(parsed) => {
                    &&& is_internal_key(key@)
                    &&& parsed.user_key@ == user_key_of(key@)
                    &&& parsed.seq == sequence_of(key@)
                    &&& Some(parsed.value_type) == kind_of(key@)
                },
                None => !is_internal_key(key@),
            },
    {
        let len: usize = key.len();
        if len < INTERNAL_KEY_TAIL {
            return None;
        }
        let at: usize = len - INTERNAL_KEY_TAIL;
        proof {
            assert(key@.subrange(at as int, len as int) =~= key@.skip(at as int));
            assert(key@.subrange(0, at as int) =~= key@.take(at as int));
        }
        let tail: u64 = decode_fixed_64(&key[at..len]);
        match ValueType::from_tag((tail % 256) as u8) {
            Some(value_type) => {
                let mut user_key: Vec<u8> = Vec::new();
                user_key.extend_from_slice(&key[0..at]);
                assert(user_key@ =~= user_key_of(key@));
                Some(Self { user_key, seq: tail / 256, value_type })
            },
            None => None,
        }
    }
}

/// Whether the internal key `a` comes before the internal key `b`, or counts
/// as equal to it, where `user` orders the user keys: the user keys decide,
/// and where they count as equal, the key with the higher sequence number
/// comes first, and of two with one sequence number the one whose kind has
/// the higher byte.
pub open spec fn internal_le<C: Comparator>(user: C, a: Seq<u8>, b: Seq<u8>) -> bool {
    !user.le(user_key_of(b), user_key_of(a)) || (user.le(user_key_of(a), user_key_of(b))
        && tail_of(a) >= tail_of(b))
}

/// The order of internal keys over an order of user keys.
#[derive(Debug)]
pub struct InternalKeyComparator<C: Comparator> {
    pub user_comparator: C,
}

impl<C: Comparator> InternalKeyComparator<C> {
    pub fn new(user_comparator: C) -> (order: Self)
        ensures
            order.user_comparator == user_comparator,
    {
        Self { user_comparator }
    }
}

/// The user key of `key`, as bytes.
pub(crate) fn user_part(key: &[u8]) -> (user_key: &[u8])
    ensures
        user_key@ == user_key_of(key@),
{
    let len: usize = key.len();
    if len < INTERNAL_KEY_TAIL {
        key
    } else {
        proof {
            assert(key@.subrange(0, len - INTERNAL_KEY_TAIL) =~= user_key_of(key@));
        }
        &key[0..len - INTERNAL_KEY_TAIL]
    }
}

/// The number that the last eight bytes of `key` hold.
pub(crate) fn tail_part(key: &[u8]) -> (tail: u64)
    ensures
        tail == tail_of(key@),
{
    let len: usize = key.len();
    if len < INTERNAL_KEY_TAIL {
        0
    } else {
        proof {
            assert(key@.subrange(len - INTERNAL_KEY_TAIL, len as int) =~= key@.skip(
                len - INTERNAL_KEY_TAIL,
            ));
        }
        decode_fixed_64(&key[len - INTERNAL_KEY_TAIL..len])
    }
}

impl<C: Comparator> Comparator for InternalKeyComparator<C> {
    open spec fn le(&self, a: Seq<u8>, b: Seq<u8>) -> bool {
        internal_le(self.user_comparator, a, b)
    }

    proof fn lemma_total(&self, a: Seq<u8>, b: Seq<u8>) {
        self.user_comparator.lemma_total(user_key_of(a), user_key_of(b));
    }

    proof fn lemma_transitive(&self, a: Seq<u8>, b: Seq<u8>, c: Seq<u8>) {
        let user = self.user_comparator;
        let ua = user_key_of(a);
        let ub = user_key_of(b);
        let uc = user_key_of(c);
        user.lemma_total(ua, ub);
        user.lemma_total(ub, uc);
        user.lemma_total(ua, uc);
        if user.le(uc, ua) {
            // Then none of the three user keys comes before another.
            if user.le(ub, uc) {
                user.lemma_transitive(ub, uc, ua);
            }
            if user.le(ua, ub) {
                user.lemma_transitive(uc, ua, ub);
            }
        }
        if user.le(ua, ub) && user.le(ub, uc) {
            user.lemma_transitive(ua, ub, uc);
        }
    }

    fn compare(&self, a: &[u8], b: &[u8]) -> (r: KeyOrder) {
        proof {
            self.user_comparator.lemma_total(user_key_of(a@), user_key_of(b@));
        }
        match self.user_comparator.compare(user_part(a), user_part(b)) {
            KeyOrder::Less => KeyOrder::Less,
            KeyOrder::Greater => KeyOrder::Greater,
            KeyOrder::Equal => {
                let ta: u64 = tail_part(a);
                let tb: u64 = tail_part(b);
                if ta > tb {
                    KeyOrder::Less
                } else if ta < tb {
                    KeyOrder::Greater
                } else {
                    KeyOrder::Equal
                }
            },
        }
    }

    fn name(&self) -> (name: &str)
        ensures
            name@ == "leveldb.InternalKeyComparator"@,
    {
        "leveldb.InternalKeyComparator"
    }
}

/// What a read looks for: a user key, as of a sequence number. It holds the
/// internal key that comes first among those of the user key that a read as
/// of the sequence number may see, after the length of that internal key as
/// a varint.
pub struct LookupKey {
    data: Vec<u8>,
    // Where the user key starts.
    start: usize,
    user_key: Ghost<Seq<u8>>,
    seq: Ghost<u64>,
}

impl LookupKey {
    #[verifier::type_invariant]
    spec fn well_formed(self) -> bool {
        &&& self.seq@ <= MAX_KEY_SEQUENCE
        &&& self.start == varint_encoding(self.user_key@.len() + INTERNAL_KEY_TAIL as nat).len()
        &&& self.data@ == varint_encoding(self.user_key@.len() + INTERNAL_KEY_TAIL as nat)
            + internal_key_encoding(self.user_key@, self.seq@, VALUE_TYPE_FOR_SEEK)
    }

    /// The user key that is looked for.
    pub closed spec fn user_key_view(&self) -> Seq<u8> {
        self.user_key@
    }

    /// The sequence number as of which it is looked for.
    pub closed spec fn sequence(&self) -> u64 {
        self.seq@
    }

    /// The internal key that is looked for.
    pub open spec fn internal_key_view(&self) -> Seq<u8> {
        internal_key_encoding(self.user_key_view(), self.sequence(), VALUE_TYPE_FOR_SEEK)
    }

    /// The key for reading `user_key` as of the sequence number `seq`.
    pub fn new(user_key: &[u8], seq: u64) -> (key: Self)
        requires
            seq <= MAX_KEY_SEQUENCE,
            user_key@.len() + INTERNAL_KEY_TAIL <= u32::MAX,
        ensures
            key.user_key_view() == user_key@,
            key.sequence() == seq,
    {
        let mut data: Vec<u8> = Vec::new();
        let start: usize = VarintU32::put_varint(
            &mut data,
            (user_key.len() + INTERNAL_KEY_TAIL) as u32,
        );
        data.extend_from_slice(user_key);
        put_fixed_64(&mut data, seq * 256 + VALUE_TYPE_FOR_SEEK.tag() as u64);
        proof {
            assert(data@ =~= varint_encoding(user_key@.len() + INTERNAL_KEY_TAIL as nat)
                + internal_key_encoding(user_key@, seq, VALUE_TYPE_FOR_SEEK));
        }
        Self { data, start, user_key: Ghost(user_key@), seq: Ghost(seq) }
    }

    /// The key as the memtable stores keys: the internal key after its
    /// length.
    pub fn mem_key(&self) -> (key: &[u8])
        ensures
            key@ == varint_encoding(self.internal_key_view().len()) + self.internal_key_view(),
            self.sequence() <= MAX_KEY_SEQUENCE,
    {
        proof {
            use_type_invariant(self);
            lemma_fixed64_round_trip(packed(self.seq@, VALUE_TYPE_FOR_SEEK) as u64, Seq::empty());
        }
        self.data.as_slice()
    }

    /// The internal key that is looked for.
    pub fn internal_key(&self) -> (key: &[u8])
        ensures
            key@ == self.internal_key_view(),
            self.sequence() <= MAX_KEY_SEQUENCE,
    {
        proof {
            use_type_invariant(self);
            assert(self.data@.subrange(self.start as int, self.data@.len() as int)
                =~= self.internal_key_view());
        }
        &self.data.as_slice()[self.start..self.data.len()]
    }

    /// The user key that is looked for.
    pub fn user_key(&self) -> (key: &[u8])
        ensures
            key@ == self.user_key_view(),
    {
        proof {
            use_type_invariant(self);
            lemma_fixed64_round_trip(packed(self.seq@, VALUE_TYPE_FOR_SEEK) as u64, Seq::empty());
            assert(self.data@.subrange(self.start as int, self.data@.len() - INTERNAL_KEY_TAIL)
                =~= self.user_key@);
        }
        &self.data.as_slice()[self.start..self.data.len() - INTERNAL_KEY_TAIL]
    }
}

} // verus!
