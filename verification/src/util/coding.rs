//! Fixed-width integers in little-endian byte order.

use vstd::prelude::*;

verus! {

/// `base` to the power `e`.
pub open spec fn power(base: nat, e: nat) -> nat
    decreases e,
{
    if e == 0 {
        1
    } else {
        base * power(base, (e - 1) as nat)
    }
}

/// The powers of a positive base grow with the exponent.
pub proof fn lemma_power_grows(base: nat, i: nat, j: nat)
    requires
        base >= 1,
        i <= j,
    ensures
        1 <= power(base, i) <= power(base, j),
    decreases j,
{
    if j > 0 {
        let p = power(base, (j - 1) as nat);
        if i < j {
            lemma_power_grows(base, i, (j - 1) as nat);
            assert(p <= base * p) by (nonlinear_arith)
                requires
                    base >= 1,
                    p >= 1,
            ;
        } else {
            lemma_power_grows(base, (i - 1) as nat, (j - 1) as nat);
            assert(1 <= base * p) by (nonlinear_arith)
                requires
                    base >= 1,
                    p >= 1,
            ;
        }
    }
}

/// The number whose digits in base 256, lowest first, are the bytes of `s`.
pub open spec fn le_value(s: Seq<u8>) -> nat
    decreases s.len(),
{
    if s.len() == 0 {
        0
    } else {
        s[0] as nat + 256 * le_value(s.drop_first())
    }
}

/// The `width` lowest digits of `n` in base 256, lowest first.
pub open spec fn le_bytes(n: nat, width: nat) -> Seq<u8>
    decreases width,
{
    if width == 0 {
        Seq::empty()
    } else {
        seq![(n % 256) as u8] + le_bytes(n / 256, (width - 1) as nat)
    }
}

/// The four bytes that stand for `n`.
pub open spec fn fixed32_encoding(n: u32) -> Seq<u8> {
    le_bytes(n as nat, 4)
}

/// The eight bytes that stand for `n`.
pub open spec fn fixed64_encoding(n: u64) -> Seq<u8> {
    le_bytes(n as nat, 8)
}

/// The number that the first `width` bytes of `s` stand for. Where `s` is
/// shorter, the bytes that are missing count as zero.
pub open spec fn le_decoding(s: Seq<u8>, width: nat) -> nat {
    if s.len() >= width {
        le_value(s.take(width as int))
    } else {
        le_value(s)
    }
}

/// The number that the first four bytes of `s` stand for. Where `s` is
/// shorter, the bytes that are missing count as zero.
pub open spec fn fixed32_decoding(s: Seq<u8>) -> nat {
    le_decoding(s, 4)
}

/// The number that the first eight bytes of `s` stand for. Where `s` is
/// shorter, the bytes that are missing count as zero.
pub open spec fn fixed64_decoding(s: Seq<u8>) -> nat {
    le_decoding(s, 8)
}

/// `le_bytes(n, width)` has `width` bytes.
pub proof fn lemma_le_bytes_len(n: nat, width: nat)
    ensures
        le_bytes(n, width).len() == width,
    decreases width,
{
    if width > 0 {
        lemma_le_bytes_len(n / 256, (width - 1) as nat);
    }
}

/// A sequence of `k` bytes stands for a number below `256^k`.
pub proof fn lemma_le_value_bound(s: Seq<u8>)
    ensures
        le_value(s) < power(256, s.len()),
    decreases s.len(),
{
    if s.len() > 0 {
        lemma_le_value_bound(s.drop_first());
    }
}

/// The bytes of a number that fits in `width` bytes stand for that number,
/// whatever follows them.
pub proof fn lemma_le_round_trip(n: nat, width: nat, rest: Seq<u8>)
    requires
        n < power(256, width),
    ensures
        le_value((le_bytes(n, width) + rest).take(width as int)) == n,
    decreases width,
{
    let enc = le_bytes(n, width);
    lemma_le_bytes_len(n, width);
    assert((enc + rest).take(width as int) =~= enc);
    if width > 0 {
        let tail = le_bytes(n / 256, (width - 1) as nat);
        lemma_le_bytes_len(n / 256, (width - 1) as nat);
        lemma_le_round_trip(n / 256, (width - 1) as nat, Seq::empty());
        assert((tail + Seq::<u8>::empty()).take(width - 1) =~= tail);
        assert(enc.drop_first() =~= tail);
    }
}

/// The bytes of the number that `s` stands for are `s` again: two sequences
/// of one length that stand for one number are equal.
pub proof fn lemma_le_bytes_of_value(s: Seq<u8>)
    ensures
        le_bytes(le_value(s), s.len()) == s,
    decreases s.len(),
{
    if s.len() > 0 {
        lemma_le_bytes_of_value(s.drop_first());
        assert(seq![s[0]] + s.drop_first() =~= s);
    }
}

/// Decoding undoes encoding, whatever follows the four bytes.
pub proof fn lemma_fixed32_round_trip(n: u32, rest: Seq<u8>)
    ensures
        fixed32_encoding(n).len() == 4,
        fixed32_decoding(fixed32_encoding(n) + rest) == n,
{
    assert(power(256, 4) == 0x1_0000_0000) by {
        reveal_with_fuel(power, 5);
    }
    lemma_le_bytes_len(n as nat, 4);
    lemma_le_round_trip(n as nat, 4, rest);
}

/// Decoding undoes encoding, whatever follows the eight bytes.
pub proof fn lemma_fixed64_round_trip(n: u64, rest: Seq<u8>)
    ensures
        fixed64_encoding(n).len() == 8,
        fixed64_decoding(fixed64_encoding(n) + rest) == n,
{
    assert(power(256, 8) == 0x1_0000_0000_0000_0000) by {
        reveal_with_fuel(power, 9);
    }
    lemma_le_bytes_len(n as nat, 8);
    lemma_le_round_trip(n as nat, 8, rest);
}

/// Appends the `width` lowest bytes of `n` to `dst`, the lowest first.
fn put_le(dst: &mut Vec<u8>, n: u64, width: usize)
    ensures
        final(dst)@ == old(dst)@ + le_bytes(n as nat, width as nat),
{
    let ghost before = dst@;
    let mut rest: u64 = n;
    let mut i: usize = 0;
    while i < width
        invariant
            i <= width,
            dst@ + le_bytes(rest as nat, (width - i) as nat) == before + le_bytes(
                n as nat,
                width as nat,
            ),
        decreases width - i,
    {
        proof {
            assert(dst@.push((rest % 256) as u8) + le_bytes(
                (rest / 256) as nat,
                (width - i - 1) as nat,
            ) =~= dst@ + le_bytes(rest as nat, (width - i) as nat));
        }
        dst.push((rest % 256) as u8);
        rest = rest / 256;
        i += 1;
    }
    assert(dst@ + le_bytes(rest as nat, 0) =~= dst@);
}

/// Reads the number that the first `width` bytes of `src` stand for. Where
/// `src` is shorter, the bytes that are missing count as zero.
fn decode_le(src: &[u8], width: usize) -> (n: u64)
    requires
        width <= 8,
    ensures
        n == le_decoding(src@, width as nat),
        n < power(256, width as nat),
{
    let k: usize = if src.len() < width {
        src.len()
    } else {
        width
    };
    let mut n: u64 = 0;
    let mut i: usize = k;
    proof {
        assert(src@.subrange(k as int, k as int) =~= Seq::<u8>::empty());
        assert(power(256, 8) == 0x1_0000_0000_0000_0000) by {
            reveal_with_fuel(power, 9);
        }
    }
    while i > 0
        invariant
            i <= k <= width <= 8,
            k <= src.len(),
            n == le_value(src@.subrange(i as int, k as int)),
            power(256, 8) == 0x1_0000_0000_0000_0000,
        decreases i,
    {
        proof {
            let cur = src@.subrange(i as int, k as int);
            let next = src@.subrange(i - 1, k as int);
            assert(next.drop_first() =~= cur);
            lemma_le_value_bound(cur);
            lemma_le_value_bound(next);
            lemma_power_grows(256, next.len(), 8);
        }
        i -= 1;
        n = n * 256 + src[i] as u64;
    }
    proof {
        if src.len() >= width {
            assert(src@.subrange(0, width as int) =~= src@.take(width as int));
        } else {
            assert(src@.subrange(0, k as int) =~= src@);
        }
        lemma_le_value_bound(src@.subrange(0, k as int));
        lemma_power_grows(256, k as nat, width as nat);
    }
    n
}

/// Appends the four bytes of `n` to `dst`.
pub fn put_fixed_32(dst: &mut Vec<u8>, n: u32)
    ensures
        final(dst)@ == old(dst)@ + fixed32_encoding(n),
{
    put_le(dst, n as u64, 4);
}

/// Appends the eight bytes of `n` to `dst`.
pub fn put_fixed_64(dst: &mut Vec<u8>, n: u64)
    ensures
        final(dst)@ == old(dst)@ + fixed64_encoding(n),
{
    put_le(dst, n, 8);
}

/// Reads the number that the first four bytes of `src` stand for. Where
/// `src` is shorter, the bytes that are missing count as zero.
pub fn decode_fixed_32(src: &[u8]) -> (n: u32)
    ensures
        n == fixed32_decoding(src@),
{
    proof {
        assert(power(256, 4) == 0x1_0000_0000) by {
            reveal_with_fuel(power, 5);
        }
    }
    decode_le(src, 4) as u32
}

/// Reads the number that the first eight bytes of `src` stand for. Where
/// `src` is shorter, the bytes that are missing count as zero.
pub fn decode_fixed_64(src: &[u8]) -> (n: u64)
    ensures
        n == fixed64_decoding(src@),
{
    decode_le(src, 8)
}

} // verus!
