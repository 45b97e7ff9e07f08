//! Bit-sequence model used by the packed route-token format.
//!
//! A byte string is read as a sequence of bits, most significant bit of each
//! byte first. Fixed-width unsigned fields are written in the same order.

use vstd::prelude::*;
use vstd::arithmetic::power2::{pow2, lemma_pow2_unfold, lemma_pow2_pos};
use vstd::arithmetic::div_mod::lemma_div_denominator;

verus! {

/// The `n` low bits of `v`, most significant first.
pub open spec fn bits_msb(v: nat, n: nat) -> Seq<bool>
    decreases n,
{
    if n == 0 {
        Seq::empty()
    } else {
        bits_msb(v / 2, (n - 1) as nat).push(v % 2 == 1)
    }
}

/// The unsigned number whose binary digits, most significant first, are `s`.
pub open spec fn from_bits(s: Seq<bool>) -> nat
    decreases s.len(),
{
    if s.len() == 0 {
        0
    } else {
        from_bits(s.drop_last()) * 2 + (if s.last() { 1nat } else { 0nat })
    }
}

/// The bits of a byte string, each byte contributing eight bits, most significant first.
pub open spec fn bytes_to_bits(bs: Seq<u8>) -> Seq<bool>
    decreases bs.len(),
{
    if bs.len() == 0 {
        Seq::empty()
    } else {
        bytes_to_bits(bs.drop_last()) + bits_msb(bs.last() as nat, 8)
    }
}

/// `n` zero bits.
pub open spec fn zero_bits(n: nat) -> Seq<bool> {
    Seq::new(n, |i: int| false)
}

/// Number of zero bits needed to complete the last byte of an `n`-bit sequence.
pub open spec fn pad_len(n: nat) -> nat {
    if n % 8 == 0 {
        0
    } else {
        (8 - n % 8) as nat
    }
}

/// Number of binary digits of `m` (zero has none).
pub open spec fn bit_len(m: nat) -> nat
    decreases m,
{
    if m == 0 {
        0
    } else {
        1 + bit_len(m / 2)
    }
}

pub proof fn lemma_bits_msb_len(v: nat, n: nat)
    ensures
        bits_msb(v, n).len() == n,
    decreases n,
{
    if n > 0 {
        lemma_bits_msb_len(v / 2, (n - 1) as nat);
    }
}

/// Appending one more low bit to `v` extends its bit sequence by that bit.
pub proof fn lemma_bits_msb_shift_in(c: nat, n: nat, b: nat)
    requires
        b < 2,
    ensures
        bits_msb(c * 2 + b, n + 1) == bits_msb(c, n).push(b == 1),
{
    assert((c * 2 + b) / 2 == c);
    assert((c * 2 + b) % 2 == b);
}

/// Reading back the bit sequence of `v` gives `v` when it fits in `n` bits.
pub proof fn lemma_from_bits_msb(v: nat, n: nat)
    requires
        v < pow2(n),
    ensures
        from_bits(bits_msb(v, n)) == v,
    decreases n,
{
    if n == 0 {
        assert(pow2(0) == 1) by { vstd::arithmetic::power2::lemma2_to64(); }
    } else {
        lemma_pow2_unfold(n);
        assert(v / 2 < pow2((n - 1) as nat));
        lemma_from_bits_msb(v / 2, (n - 1) as nat);
        let s = bits_msb(v, n);
        assert(s.drop_last() =~= bits_msb(v / 2, (n - 1) as nat));
    }
}

/// A value read from `n` bits is below `2^n`.
pub proof fn lemma_from_bits_bound(s: Seq<bool>)
    ensures
        from_bits(s) < pow2(s.len()),
    decreases s.len(),
{
    if s.len() == 0 {
        assert(pow2(0) == 1) by { vstd::arithmetic::power2::lemma2_to64(); }
    } else {
        lemma_from_bits_bound(s.drop_last());
        lemma_pow2_unfold(s.len());
    }
}

pub proof fn lemma_from_bits_push(s: Seq<bool>, b: bool)
    ensures
        from_bits(s.push(b)) == from_bits(s) * 2 + (if b { 1nat } else { 0nat }),
{
    assert(s.push(b).drop_last() =~= s);
}

/// Digit `j` (from the most significant end) of the `n`-bit sequence of `v`.
pub proof fn lemma_bits_msb_index(v: nat, n: nat, j: int)
    requires
        0 <= j < n,
    ensures
        bits_msb(v, n)[j] == ((v / pow2((n - 1 - j) as nat)) % 2 == 1),
    decreases n,
{
    lemma_bits_msb_len(v, n);
    lemma_bits_msb_len(v / 2, (n - 1) as nat);
    if j == n - 1 {
        assert(pow2(0) == 1) by { vstd::arithmetic::power2::lemma2_to64(); }
        assert(bits_msb(v, n)[j] == (v % 2 == 1));
        assert(v / pow2(0) == v);
    } else {
        lemma_bits_msb_index(v / 2, (n - 1) as nat, j);
        let e = (n - 2 - j) as nat;
        lemma_pow2_pos(e);
        lemma_div_denominator(v as int, 2, pow2(e) as int);
        lemma_pow2_unfold(e + 1);
        assert(2 * pow2(e) == pow2((n - 1 - j) as nat));
        assert(bits_msb(v, n)[j] == bits_msb(v / 2, (n - 1) as nat)[j]);
        assert((v / 2) / pow2(e) == v / pow2((n - 1 - j) as nat));
    }
}

pub proof fn lemma_bytes_to_bits_len(bs: Seq<u8>)
    ensures
        bytes_to_bits(bs).len() == 8 * bs.len(),
    decreases bs.len(),
{
    if bs.len() > 0 {
        lemma_bytes_to_bits_len(bs.drop_last());
        lemma_bits_msb_len(bs.last() as nat, 8);
    }
}

pub proof fn lemma_bytes_to_bits_push(bs: Seq<u8>, b: u8)
    ensures
        bytes_to_bits(bs.push(b)) == bytes_to_bits(bs) + bits_msb(b as nat, 8),
{
    assert(bs.push(b).drop_last() =~= bs);
}

/// Bit `8 * i + t` of a byte string is bit `t` of its byte `i`.
pub proof fn lemma_bytes_to_bits_index(bs: Seq<u8>, i: int, t: int)
    requires
        0 <= i < bs.len(),
        0 <= t < 8,
    ensures
        bytes_to_bits(bs)[8 * i + t] == bits_msb(bs[i] as nat, 8)[t],
    decreases bs.len(),
{
    lemma_bytes_to_bits_len(bs.drop_last());
    lemma_bits_msb_len(bs.last() as nat, 8);
    if i < bs.len() - 1 {
        lemma_bytes_to_bits_index(bs.drop_last(), i, t);
    }
}

/// Two byte strings with the same bits are equal.
pub proof fn lemma_bytes_to_bits_injective(a: Seq<u8>, b: Seq<u8>)
    requires
        bytes_to_bits(a) == bytes_to_bits(b),
    ensures
        a == b,
{
    lemma_bytes_to_bits_len(a);
    lemma_bytes_to_bits_len(b);
    assert forall|i: int| 0 <= i < a.len() implies a[i] == b[i] by {
        lemma_bits_msb_len(a[i] as nat, 8);
        lemma_bits_msb_len(b[i] as nat, 8);
        assert forall|t: int| 0 <= t < 8 implies bits_msb(a[i] as nat, 8)[t] == bits_msb(
            b[i] as nat,
            8,
        )[t] by {
            lemma_bytes_to_bits_index(a, i, t);
            lemma_bytes_to_bits_index(b, i, t);
        }
        assert(bits_msb(a[i] as nat, 8) =~= bits_msb(b[i] as nat, 8));
        assert(pow2(8) == 256) by { vstd::arithmetic::power2::lemma2_to64(); }
        lemma_from_bits_msb(a[i] as nat, 8);
        lemma_from_bits_msb(b[i] as nat, 8);
    }
    assert(a =~= b);
}

/// `m` fits in `bit_len(m)` bits.
pub proof fn lemma_bit_len_bound(m: nat)
    ensures
        m < pow2(bit_len(m)),
    decreases m,
{
    if m == 0 {
        assert(pow2(0) == 1) by { vstd::arithmetic::power2::lemma2_to64(); }
    } else {
        lemma_bit_len_bound(m / 2);
        lemma_pow2_unfold(bit_len(m));
    }
}

/// `m` needs all of its `bit_len(m)` bits: it is at least `2^(bit_len(m) - 1)`.
pub proof fn lemma_bit_len_lower(m: nat)
    requires
        m > 0,
    ensures
        pow2((bit_len(m) - 1) as nat) <= m,
    decreases m,
{
    if m == 1 {
        assert(bit_len(0) == 0);
        assert(pow2(0) == 1) by { vstd::arithmetic::power2::lemma2_to64(); }
    } else {
        lemma_bit_len_lower(m / 2);
        lemma_pow2_unfold((bit_len(m) - 1) as nat);
    }
}

/// `bit_len` never decreases as its argument grows.
pub proof fn lemma_bit_len_monotone(a: nat, b: nat)
    requires
        a <= b,
    ensures
        bit_len(a) <= bit_len(b),
    decreases b,
{
    if a > 0 {
        lemma_bit_len_monotone(a / 2, b / 2);
    }
}

/// Doubling a value shifts a zero bit in at the bottom.
pub proof fn lemma_bits_msb_shift_zero(c: nat, n: nat)
    ensures
        bits_msb(c * 2, n + 1) == bits_msb(c, n).push(false),
{
    lemma_bits_msb_shift_in(c, n, 0);
}

pub proof fn lemma_bits_msb_zero(n: nat)
    ensures
        bits_msb(0, n) == zero_bits(n),
    decreases n,
{
    lemma_bits_msb_len(0, n);
    if n > 0 {
        lemma_bits_msb_zero((n - 1) as nat);
        assert(bits_msb(0, n) =~= zero_bits(n));
    } else {
        assert(bits_msb(0, n) =~= zero_bits(n));
    }
}

} // verus!
