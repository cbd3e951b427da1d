//! Big-endian byte strings and the natural numbers they denote.

use vstd::arithmetic::power2::{lemma2_to64, lemma_pow2_adds, lemma_pow2_unfold, pow2};
use vstd::prelude::*;

verus! {

/// The number that the big-endian byte string `s` denotes.
pub open spec fn be_value(s: Seq<u8>) -> nat
    decreases s.len(),
{
    if s.len() == 0 {
        0
    } else {
        be_value(s.drop_last()) * 256 + s.last() as nat
    }
}

/// The shortest big-endian byte string that denotes `v`; empty for 0.
pub open spec fn be_bytes(v: nat) -> Seq<u8>
    decreases v,
{
    if v == 0 {
        Seq::empty()
    } else {
        be_bytes(v / 256).push((v % 256) as u8)
    }
}

/// `s` has no leading zero byte.
pub open spec fn is_minimal(s: Seq<u8>) -> bool {
    s.len() == 0 || s[0] != 0
}

/// Decoding undoes encoding.
pub proof fn lemma_be_value_of_be_bytes(v: nat)
    ensures
        be_value(be_bytes(v)) == v,
    decreases v,
{
    if v != 0 {
        lemma_be_value_of_be_bytes(v / 256);
        let hi = be_bytes(v / 256);
        let lo = (v % 256) as u8;
        assert(hi.push(lo).drop_last() =~= hi);
        assert(hi.push(lo).last() == lo);
    }
}

/// An encoding is empty exactly for 0, and never starts with a zero byte.
pub proof fn lemma_be_bytes_minimal(v: nat)
    ensures
        is_minimal(be_bytes(v)),
        be_bytes(v).len() == 0 <==> v == 0,
    decreases v,
{
    if v != 0 {
        lemma_be_bytes_minimal(v / 256);
        let hi = be_bytes(v / 256);
        let lo = (v % 256) as u8;
        if hi.len() == 0 {
            assert(v / 256 == 0);
            assert(hi.push(lo)[0] == lo);
        } else {
            assert(hi.push(lo)[0] == hi[0]);
        }
    }
}

/// The number 256 to the power `len`.
pub open spec fn radix_pow(len: nat) -> nat
    decreases len,
{
    if len == 0 {
        1
    } else {
        256 * radix_pow((len - 1) as nat)
    }
}

/// A number below 256 to the power `len` is encoded in at most `len` bytes.
pub proof fn lemma_be_bytes_len(v: nat, len: nat)
    requires
        v < radix_pow(len),
    ensures
        be_bytes(v).len() <= len,
    decreases v,
{
    if v != 0 {
        assert(len > 0);
        lemma_be_bytes_len(v / 256, (len - 1) as nat);
    }
}

/// 256 to the power `len` is 2 to the power 8 `len`.
pub proof fn lemma_radix_pow_is_pow2(len: nat)
    ensures
        radix_pow(len) == pow2(8 * len),
    decreases len,
{
    lemma2_to64();
    if len > 0 {
        lemma_radix_pow_is_pow2((len - 1) as nat);
        lemma_pow2_adds(8, 8 * ((len - 1) as nat));
    }
}

/// The leading byte of a string bounds the number denoted from both sides.
pub proof fn lemma_be_value_bounds(s: Seq<u8>)
    requires
        s.len() > 0,
    ensures
        radix_pow((s.len() - 1) as nat) * s[0] <= be_value(s),
        be_value(s) < radix_pow((s.len() - 1) as nat) * (s[0] + 1),
    decreases s.len(),
{
    let hi = s.drop_last();
    let lead = s[0] as int;
    let v = be_value(hi);
    assert(be_value(s) == v * 256 + s.last() as nat);
    if hi.len() == 0 {
        assert(v == 0);
        assert(s.last() == s[0]);
        let unit = radix_pow(0);
        assert(unit == 1);
        assert(unit * lead == lead && unit * (lead + 1) == lead + 1) by (nonlinear_arith)
            requires
                unit == 1,
        ;
    } else {
        assert(hi[0] == s[0]);
        lemma_be_value_bounds(hi);
        let unit = radix_pow((hi.len() - 1) as nat);
        let above = radix_pow((s.len() - 1) as nat);
        assert(above == 256 * unit);
        assert(above * lead <= v * 256 && (v + 1) * 256 <= above * (lead + 1))
            by (nonlinear_arith)
            requires
                above == 256 * unit,
                unit * lead <= v,
                v < unit * (lead + 1),
        ;
    }
}

/// The number of binary digits of `v`; 0 for 0.
pub open spec fn bit_len(v: nat) -> nat
    decreases v,
{
    if v == 0 {
        0
    } else {
        bit_len(v / 2) + 1
    }
}

/// A positive number lies between the two powers of 2 that its number of
/// binary digits names.
pub proof fn lemma_bit_len_bounds(v: nat)
    requires
        v > 0,
    ensures
        pow2((bit_len(v) - 1) as nat) <= v < pow2(bit_len(v)),
    decreases v,
{
    lemma2_to64();
    if v / 2 > 0 {
        lemma_bit_len_bounds(v / 2);
        let below = bit_len(v / 2);
        assert(bit_len(v) == below + 1);
        lemma_pow2_unfold(below + 1);
        lemma_pow2_unfold(below);
    } else {
        assert(v == 1);
        assert(bit_len(0) == 0);
        assert(bit_len(1) == 1);
    }
}

/// A number between two neighbouring powers of 2 has as many binary digits
/// as the upper one names.
pub proof fn lemma_bit_len_unique(v: nat, bits: nat)
    requires
        bits >= 1,
        pow2((bits - 1) as nat) <= v < pow2(bits),
    ensures
        bit_len(v) == bits,
    decreases bits,
{
    lemma2_to64();
    if bits == 1 {
        assert(v == 1);
        assert(bit_len(0) == 0);
    } else {
        lemma_pow2_unfold(bits);
        lemma_pow2_unfold((bits - 1) as nat);
        lemma_bit_len_unique(v / 2, (bits - 1) as nat);
    }
}

/// Encoding undoes decoding on strings without a leading zero byte.
pub proof fn lemma_be_bytes_of_be_value(s: Seq<u8>)
    requires
        is_minimal(s),
    ensures
        be_bytes(be_value(s)) == s,
    decreases s.len(),
{
    if s.len() != 0 {
        let hi = s.drop_last();
        let v = be_value(s);
        assert(v == be_value(hi) * 256 + s.last() as nat);
        assert(v / 256 == be_value(hi));
        assert(v % 256 == s.last() as nat);
        if hi.len() == 0 {
            assert(be_value(hi) == 0);
            assert(s.last() == s[0]);
            assert(v != 0);
            assert(be_bytes(0) =~= Seq::<u8>::empty());
        } else {
            assert(hi[0] == s[0]);
            lemma_be_bytes_of_be_value(hi);
            lemma_minimal_value_positive(hi);
        }
        assert(be_bytes(v) =~= s);
    }
}

/// A non-empty string without a leading zero byte denotes a positive number.
pub proof fn lemma_minimal_value_positive(s: Seq<u8>)
    requires
        is_minimal(s),
        s.len() > 0,
    ensures
        be_value(s) > 0,
    decreases s.len(),
{
    let hi = s.drop_last();
    if hi.len() == 0 {
        assert(s.last() == s[0]);
    } else {
        assert(hi[0] == s[0]);
        lemma_minimal_value_positive(hi);
    }
}

/// A leading zero byte does not change the number denoted.
pub proof fn lemma_be_value_leading_zero(s: Seq<u8>)
    requires
        s.len() > 0,
        s[0] == 0,
    ensures
        be_value(s) == be_value(s.drop_first()),
    decreases s.len(),
{
    let hi = s.drop_last();
    let tail = s.drop_first();
    if hi.len() == 0 {
        assert(s.last() == s[0]);
        assert(be_value(hi) == 0);
        assert(tail.len() == 0);
    } else {
        assert(hi[0] == s[0]);
        lemma_be_value_leading_zero(hi);
        assert(tail.drop_last() =~= hi.drop_first());
        assert(tail.last() == s.last());
        assert(be_value(tail) == be_value(tail.drop_last()) * 256 + tail.last() as nat);
    }
}

/// Copies `bytes` without its leading zero bytes.
pub fn strip_leading_zeros(bytes: &[u8]) -> (out: Vec<u8>)
    ensures
        out@ == be_bytes(be_value(bytes@)),
        out@.len() <= bytes@.len(),
{
    let mut start: usize = 0;
    assert(bytes@.skip(0) =~= bytes@);
    while start < bytes.len() && bytes[start] == 0
        invariant
            start <= bytes@.len(),
            be_value(bytes@) == be_value(bytes@.skip(start as int)),
        decreases bytes@.len() - start,
    {
        proof {
            let rest = bytes@.skip(start as int);
            lemma_be_value_leading_zero(rest);
            assert(rest.drop_first() =~= bytes@.skip(start + 1));
        }
        start = start + 1;
    }
    let mut out: Vec<u8> = Vec::new();
    let mut i: usize = start;
    while i < bytes.len()
        invariant
            start <= i <= bytes@.len(),
            out@ == bytes@.subrange(start as int, i as int),
        decreases bytes@.len() - i,
    {
        out.push(bytes[i]);
        i = i + 1;
        assert(out@ =~= bytes@.subrange(start as int, i as int));
    }
    proof {
        assert(out@ =~= bytes@.skip(start as int));
        lemma_be_bytes_of_be_value(out@);
    }
    out
}

/// The shortest big-endian encoding of `v`.
pub fn be_bytes_of(v: u64) -> (out: Vec<u8>)
    ensures
        out@ == be_bytes(v as nat),
{
    let mut out: Vec<u8> = Vec::new();
    let mut rest: u64 = v;
    // Collect the bytes from the low end, then reverse.
    let mut low_first: Vec<u8> = Vec::new();
    while rest != 0
        invariant
            be_bytes(v as nat) == be_bytes(rest as nat) + low_first@.reverse(),
        decreases rest,
    {
        let byte: u8 = (rest % 256) as u8;
        proof {
            let hi = be_bytes((rest / 256) as nat);
            assert(be_bytes(rest as nat) == hi.push(byte));
            assert(hi.push(byte) + low_first@.reverse() =~= hi + low_first@.push(byte).reverse());
        }
        low_first.push(byte);
        rest = rest / 256;
    }
    let mut i: usize = low_first.len();
    while i > 0
        invariant
            i <= low_first@.len(),
            out@ == low_first@.reverse().subrange(0, low_first@.len() - i),
        decreases i,
    {
        i = i - 1;
        out.push(low_first[i]);
        assert(out@ =~= low_first@.reverse().subrange(0, low_first@.len() - i));
    }
    proof {
        assert(out@ =~= low_first@.reverse());
        assert(be_bytes(0) =~= Seq::<u8>::empty());
        assert(be_bytes(v as nat) =~= out@);
    }
    out
}

} // verus!
