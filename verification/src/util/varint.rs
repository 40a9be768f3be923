//! Variable-length integers: seven bits of the number per byte, the low bits
//! first, the high bit of a byte set while more bytes follow.

use crate::util::coding::{lemma_power_grows, power};
use vstd::prelude::*;

verus! {

/// The most bytes the varint of a `u32` takes.
pub const MAX_VARINT_LEN_U32: usize = 5;

/// The most bytes the varint of a `u64` takes.
pub const MAX_VARINT_LEN_U64: usize = 10;

/// The varint of `n`.
pub open spec fn varint_encoding(n: nat) -> Seq<u8>
    decreases n,
{
    if n < 128 {
        seq![n as u8]
    } else {
        seq![(n % 128 + 128) as u8] + varint_encoding(n / 128)
    }
}

/// The number of bytes of the varint that `s` starts with: one more than the
/// index of the first byte whose high bit is clear. `None` when every byte of
/// `s` has its high bit set.
pub open spec fn varint_span(s: Seq<u8>) -> Option<nat>
    decreases s.len(),
{
    if s.len() == 0 {
        None
    } else if s[0] < 128 {
        Some(1)
    } else {
        match varint_span(s.drop_first()) {
            Some(k) => Some(k + 1),
            None => None,
        }
    }
}

/// The number whose digits in base 128, lowest first, are the low seven bits
/// of the bytes of `s`.
pub open spec fn base128_value(s: Seq<u8>) -> nat
    decreases s.len(),
{
    if s.len() == 0 {
        0
    } else {
        (s[0] % 128) as nat + 128 * base128_value(s.drop_first())
    }
}

/// The number that the varint at the start of `s` stands for, with the number
/// of bytes it takes. `None` when no varint ends within `s`.
pub open spec fn varint_decoding(s: Seq<u8>) -> Option<(nat, nat)> {
    match varint_span(s) {
        Some(k) => Some((base128_value(s.take(k as int)), k)),
        None => None,
    }
}

/// What reading a `u32` from the start of `s` gives: the number and the bytes
/// taken. `None` when no varint ends within the first five bytes of `s`, or
/// the number is too large for a `u32`.
pub open spec fn varint_u32_decoding(s: Seq<u8>) -> Option<(u32, nat)> {
    match varint_decoding(s) {
        Some((v, k)) => if k <= MAX_VARINT_LEN_U32 && v <= u32::MAX {
            Some((v as u32, k))
        } else {
            None
        },
        None => None,
    }
}

/// What reading a `u64` from the start of `s` gives: the number and the bytes
/// taken. `None` when no varint ends within the first ten bytes of `s`, or the
/// number is too large for a `u64`.
pub open spec fn varint_u64_decoding(s: Seq<u8>) -> Option<(u64, nat)> {
    match varint_decoding(s) {
        Some((v, k)) => if k <= MAX_VARINT_LEN_U64 && v <= u64::MAX {
            Some((v as u64, k))
        } else {
            None
        },
        None => None,
    }
}

/// A varint is never empty, and a number below `128^k` takes at most `k`
/// bytes (one byte, for zero).
pub proof fn lemma_varint_encoding_len(n: nat, k: nat)
    requires
        k >= 1,
        n < power(128, k),
    ensures
        1 <= varint_encoding(n).len() <= k,
    decreases k,
{
    if n >= 128 {
        assert(power(128, 1) == 128) by {
            reveal_with_fuel(power, 2);
        }
        assert(k >= 2);
        assert(power(128, k) == 128 * power(128, (k - 1) as nat));
        lemma_varint_encoding_len(n / 128, (k - 1) as nat);
    }
}

/// The varint of a `u32` takes between one and five bytes.
pub proof fn lemma_varint_u32_len(n: u32)
    ensures
        1 <= varint_encoding(n as nat).len() <= MAX_VARINT_LEN_U32,
{
    assert(power(128, 5) == 0x8_0000_0000) by {
        reveal_with_fuel(power, 6);
    }
    lemma_varint_encoding_len(n as nat, 5);
}

/// The varint of a `u64` takes between one and ten bytes.
pub proof fn lemma_varint_u64_len(n: u64)
    ensures
        1 <= varint_encoding(n as nat).len() <= MAX_VARINT_LEN_U64,
{
    assert(power(128, 10) == 0x40_0000_0000_0000_0000) by {
        reveal_with_fuel(power, 11);
    }
    lemma_varint_encoding_len(n as nat, 10);
}

/// Decoding undoes encoding, whatever follows the varint.
pub proof fn lemma_varint_round_trip(n: nat, rest: Seq<u8>)
    ensures
        varint_decoding(varint_encoding(n) + rest) == Some((n, varint_encoding(n).len())),
    decreases n,
{
    let enc = varint_encoding(n);
    let s = enc + rest;
    if n < 128 {
        assert(s.take(1) =~= enc);
        assert(enc.drop_first() =~= Seq::<u8>::empty());
        assert(base128_value(enc) == n) by {
            reveal_with_fuel(base128_value, 2);
        }
    } else {
        let tail = varint_encoding(n / 128);
        lemma_varint_round_trip(n / 128, rest);
        assert(s.drop_first() =~= tail + rest);
        let k = tail.len() as int;
        assert(varint_span(s) == Some((k + 1) as nat));
        assert(s.take(k + 1).drop_first() =~= (tail + rest).take(k));
        assert(s.take(k + 1)[0] == s[0]);
        assert(base128_value(s.take(k + 1)) == (s[0] % 128) as nat + 128 * (n / 128));
    }
}

/// Reading a `u32` back from its varint gives the number and the varint's
/// length, whatever follows the varint.
pub proof fn lemma_varint_u32_round_trip(n: u32, rest: Seq<u8>)
    ensures
        varint_u32_decoding(varint_encoding(n as nat) + rest) == Some(
            (n, varint_encoding(n as nat).len()),
        ),
{
    lemma_varint_round_trip(n as nat, rest);
    lemma_varint_u32_len(n);
}

/// Reading a `u64` back from its varint gives the number and the varint's
/// length, whatever follows the varint.
pub proof fn lemma_varint_u64_round_trip(n: u64, rest: Seq<u8>)
    ensures
        varint_u64_decoding(varint_encoding(n as nat) + rest) == Some(
            (n, varint_encoding(n as nat).len()),
        ),
{
    lemma_varint_round_trip(n as nat, rest);
    lemma_varint_u64_len(n);
}

/// Where the first `i` bytes of `s` all have their high bit set, the varint
/// of `s` is that of `s` without them, `i` bytes longer.
proof fn lemma_span_skip(s: Seq<u8>, i: int)
    requires
        0 <= i <= s.len(),
        forall|j: int| 0 <= j < i ==> s[j] >= 128,
    ensures
        varint_span(s) == match varint_span(s.skip(i)) {
            Some(k) => Some((k + i) as nat),
            None => None,
        },
    decreases i,
{
    if i == 0 {
        assert(s.skip(0) =~= s);
    } else {
        let t = s.drop_first();
        assert forall|j: int| 0 <= j < i - 1 implies t[j] >= 128 by {
            assert(t[j] == s[j + 1]);
        }
        lemma_span_skip(t, i - 1);
        assert(t.skip(i - 1) =~= s.skip(i));
    }
}

/// A varint is at least one byte long and ends within the sequence.
pub proof fn lemma_span_bounds(s: Seq<u8>)
    ensures
        varint_span(s) matches Some(k) ==> 1 <= k <= s.len(),
    decreases s.len(),
{
    if s.len() > 0 && s[0] >= 128 {
        lemma_span_bounds(s.drop_first());
    }
}

/// One more byte adds its low seven bits as the digit of the next place.
proof fn lemma_value_snoc(s: Seq<u8>, i: int)
    requires
        0 <= i < s.len(),
    ensures
        base128_value(s.take(i + 1)) == base128_value(s.take(i)) + (s[i] % 128) * power(128, i as nat),
    decreases i,
{
    if i == 0 {
        assert(s.take(1).drop_first() =~= Seq::<u8>::empty());
        assert(s.take(0) =~= Seq::<u8>::empty());
        assert(base128_value(s.take(1)) == (s[0] % 128) as nat) by {
            reveal_with_fuel(base128_value, 2);
        }
        assert(base128_value(s.take(0)) == 0);
        assert(power(128, 0) == 1);
        assert((s[0] % 128) * power(128, 0) == (s[0] % 128) as int);
    } else {
        let t = s.drop_first();
        lemma_value_snoc(t, i - 1);
        assert(s.take(i + 1).drop_first() =~= t.take(i));
        assert(s.take(i).drop_first() =~= t.take(i - 1));
        assert(t[i - 1] == s[i]);
        assert(s.take(i + 1)[0] == s[0] && s.take(i)[0] == s[0]);
        let d = (s[i] % 128) as int;
        let w = power(128, (i - 1) as nat) as int;
        assert(power(128, i as nat) == 128 * w);
        assert(128 * (d * w) == d * (128 * w)) by (nonlinear_arith);
        assert(base128_value(s.take(i + 1)) == (s[0] % 128) + 128 * base128_value(t.take(i)));
        assert(base128_value(s.take(i)) == (s[0] % 128) + 128 * base128_value(t.take(i - 1)));
        assert(base128_value(t.take(i)) == base128_value(t.take(i - 1)) + d * w);
        assert(base128_value(s.take(i + 1)) == base128_value(s.take(i)) + d * (128 * w));
    }
}

/// Coding of `u32` numbers as varints.
pub struct VarintU32;

impl VarintU32 {
    /// Appends the varint of `n` to `dst` and returns the number of bytes
    /// appended.
    pub fn put_varint(dst: &mut Vec<u8>, n: u32) -> (written: usize)
        ensures
            final(dst)@ == old(dst)@ + varint_encoding(n as nat),
            written == varint_encoding(n as nat).len(),
    {
        VarintU64::put_varint(dst, n as u64)
    }

    /// Reads the varint of a `u32` from the start of `src`: the number, and the
    /// number of bytes it took. `None` when `src` ends before the varint does,
    /// when the varint is longer than five bytes, or when its number is too
    /// large for a `u32`.
    pub fn read(src: &[u8]) -> (res: Option<(u32, usize)>)
        ensures
            res == match varint_u32_decoding(src@) {
                Some((v, k)) => Some((v, k as usize)),
                None => None,
            },
    {
        match VarintU64::read(src) {
            Some((v, k)) => {
                if k <= MAX_VARINT_LEN_U32 && v <= 0xffff_ffff {
                    Some((v as u32, k))
                } else {
                    None
                }
            },
            None => None,
        }
    }
}

/// Coding of `u64` numbers as varints.
pub struct VarintU64;

impl VarintU64 {
    /// Appends the varint of `n` to `dst` and returns the number of bytes
    /// appended.
    pub fn put_varint(dst: &mut Vec<u8>, n: u64) -> (written: usize)
        ensures
            final(dst)@ == old(dst)@ + varint_encoding(n as nat),
            written == varint_encoding(n as nat).len(),
    {
        let ghost before = dst@;
        let mut rest: u64 = n;
        let mut written: usize = 1;
        proof {
            lemma_varint_u64_len(n);
        }
        while rest >= 128
            invariant
                dst@ + varint_encoding(rest as nat) == before + varint_encoding(n as nat),
                written + varint_encoding(rest as nat).len() == 1 + varint_encoding(n as nat).len(),
                varint_encoding(rest as nat).len() >= 1,
                varint_encoding(n as nat).len() <= MAX_VARINT_LEN_U64,
            decreases rest,
        {
            proof {
                lemma_varint_u64_len(rest / 128);
                assert(dst@.push((rest % 128 + 128) as u8) + varint_encoding((rest / 128) as nat)
                    =~= dst@ + varint_encoding(rest as nat));
            }
            dst.push((rest % 128) as u8 + 128);
            rest = rest / 128;
            written += 1;
        }
        assert(dst@.push(rest as u8) =~= dst@ + varint_encoding(rest as nat));
        dst.push(rest as u8);
        written
    }

    /// Reads the varint of a `u64` from the start of `src`: the number, and the
    /// number of bytes it took. `None` when `src` ends before the varint does,
    /// when the varint is longer than ten bytes, or when its number is too
    /// large for a `u64`.
    pub fn read(src: &[u8]) -> (res: Option<(u64, usize)>)
        ensures
            res == match varint_u64_decoding(src@) {
                Some((v, k)) => Some((v, k as usize)),
                None => None,
            },
    {
        let mut n: u64 = 0;
        let mut scale: u64 = 1;
        let mut i: usize = 0;
        proof {
            assert(src@.take(0) =~= Seq::<u8>::empty());
            assert(power(128, 9) == 0x8000_0000_0000_0000) by {
                reveal_with_fuel(power, 10);
            }
        }
        while i < src.len()
            invariant
                i <= src.len(),
                i <= 9,
                forall|j: int| 0 <= j < i ==> src@[j] >= 128,
                n == base128_value(src@.take(i as int)),
                scale == power(128, i as nat),
                n < scale,
                power(128, 9) == 0x8000_0000_0000_0000,
            decreases src.len() - i,
        {
            let b: u8 = src[i];
            proof {
                lemma_span_skip(src@, i as int);
                lemma_value_snoc(src@, i as int);
                lemma_power_grows(128, i as nat, 9);
                if i < 9 {
                    lemma_power_grows(128, (i + 1) as nat, 9);
                }
                let d = (b % 128) as int;
                let w = scale as int;
                let m = n as int;
                assert(0 <= d * w && m + d * w < 128 * w) by (nonlinear_arith)
                    requires
                        0 <= d <= 127,
                        0 <= m < w,
                ;
            }
            if b < 128 {
                if i == 9 && b > 1 {
                    assert(base128_value(src@.take(i + 1)) > u64::MAX) by (nonlinear_arith)
                        requires
                            base128_value(src@.take(i + 1)) == n + (b % 128) * scale,
                            scale == 0x8000_0000_0000_0000,
                            b % 128 >= 2,
                    ;
                    return None;
                }
                assert((b as int) * scale <= u64::MAX && n + (b as int) * scale <= u64::MAX)
                    by (nonlinear_arith)
                    requires
                        n < scale,
                        b <= 127,
                        i < 9 ==> 128 * scale <= 0x8000_0000_0000_0000,
                        i == 9 ==> scale == 0x8000_0000_0000_0000 && b <= 1,
                        i <= 9,
                ;
                return Some((n + (b as u64) * scale, i + 1));
            }
            if i == 9 {
                proof {
                    lemma_span_skip(src@, 10);
                    lemma_span_bounds(src@.skip(10));
                }
                return None;
            }
            n = n + ((b - 128) as u64) * scale;
            scale = scale * 128;
            i += 1;
        }
        proof {
            lemma_span_skip(src@, i as int);
        }
        None
    }
}

} // verus!
