//! Bit-level model of the 64-bit bitmap words.
//!
//! A bitmap word covers 64 consecutive input bytes with the earliest byte in
//! the most significant bit.  [`has_bit`] reads a word through that byte
//! ordering; the lemmas below restate the bitwise operators used by the
//! pipeline (and, or, not, shifts, packing 16-bit masks) in terms of it.

use vstd::prelude::*;
use vstd::std_specs::bits::axiom_u64_leading_zeros;
use vstd::std_specs::bits::u64_leading_zeros;

verus! {

/// True when bit `s` (counting from the least significant bit) of `w` is set.
pub open spec fn bit_u64(w: u64, s: u64) -> bool
    recommends
        s < 64,
{
    (w >> s) & 1u64 == 1u64
}

/// True when bit `s` (counting from the least significant bit) of `m` is set.
pub open spec fn bit_u16(m: u16, s: u16) -> bool
    recommends
        s < 16,
{
    (m >> s) & 1u16 == 1u16
}

/// True when the byte at offset `j` of the 64-byte chunk covered by `w` is
/// marked.  Offset 0, the earliest byte of the chunk, sits in the most
/// significant bit.
pub open spec fn has_bit(w: u64, j: int) -> bool
    recommends
        0 <= j < 64,
{
    bit_u64(w, (63 - j) as u64)
}

/// Left shift that tolerates a count of 64 by returning zero.
pub open spec fn shl64(w: u64, c: int) -> u64
    recommends
        0 <= c <= 64,
{
    if 0 <= c < 64 {
        w << (c as u64)
    } else {
        0u64
    }
}

/// Pointwise reading of the bitwise operators that the emitter applies to
/// whole words.
pub proof fn lemma_bit_ops()
    by (bit_vector)
    ensures
        forall|a: u64, b: u64, s: u64|
            s < 64 ==> (#[trigger] bit_u64(a & b, s) == (bit_u64(a, s) && bit_u64(b, s))),
        forall|a: u64, s: u64| s < 64 ==> (#[trigger] bit_u64(!a, s) == !bit_u64(a, s)),
        forall|s: u64| s < 64 ==> !(#[trigger] bit_u64(0u64, s)),
        forall|a: u64| #[trigger] (a & 1u64) == 0u64 || (a & 1u64) == 1u64,
        forall|a: u64| #[trigger] (a << 0u64) == a,
{
}

/// A left shift by `c` moves the bit at index `s - c` up to index `s` and
/// clears the indices below `c`.
pub proof fn lemma_shl_bits()
    by (bit_vector)
    ensures
        forall|w: u64, c: u64, s: u64|
            c < 64 && s < 64 ==> (#[trigger] bit_u64(w << c, s) == (s >= c && bit_u64(
                w,
                (s - c) as u64,
            ))),
{
}

/// Packing a 16-bit lane mask into a 64-bit word at shift `k` fills the bit
/// indices `[k, k + 16)` and leaves every other index alone.
pub proof fn lemma_pack_u16()
    by (bit_vector)
    ensures
        forall|p: u64, w: u16, k: u64, s: u64|
            k <= 48 && s < 64 ==> (#[trigger] bit_u64(p | ((w as u64) << k), s) == (bit_u64(p, s)
                || (k <= s && s < k + 16 && bit_u16(w, (s - k) as u16)))),
{
}

/// Raising a single bit of a 16-bit mask leaves the other bits alone.
pub proof fn lemma_set_bit_u16()
    by (bit_vector)
    ensures
        forall|m: u16, s: u16, t: u16|
            s < 16 && t < 16 ==> (#[trigger] bit_u16(m | (1u16 << s), t) == (t == s || bit_u16(
                m,
                t,
            ))),
        forall|t: u16| t < 16 ==> !(#[trigger] bit_u16(0u16, t)),
{
}

/// Two left shifts compose into one; once the counts add up to the width,
/// nothing is left.
pub proof fn lemma_shl_compose()
    by (bit_vector)
    ensures
        forall|w: u64, a: u64, b: u64|
            a < 64 && b < 64 && a + b < 64 ==> #[trigger] ((w << a) << b) == w << ((a + b) as u64),
        forall|w: u64, a: u64, b: u64|
            a < 64 && b < 64 && a + b >= 64 ==> #[trigger] ((w << a) << b) == 0u64,
{
}

/// The count of leading zeros of a word names the offset of its earliest
/// marked byte: every smaller offset is clear, and the offset itself is set
/// unless the word is zero.
pub proof fn lemma_leading_zeros(w: u64)
    ensures
        0 <= u64_leading_zeros(w) <= 64,
        w == 0 <==> u64_leading_zeros(w) == 64,
        forall|j: int| 0 <= j < u64_leading_zeros(w) ==> !has_bit(w, j),
        u64_leading_zeros(w) < 64 ==> has_bit(w, u64_leading_zeros(w)),
{
    axiom_u64_leading_zeros(w);
    let lz = u64_leading_zeros(w);
    assert forall|j: int| 0 <= j < lz implies !has_bit(w, j) by {
        let s = (63 - j) as u64;
        assert(64 - lz <= s < 64);
        assert((w >> s) & 1u64 == 0u64);
        lemma_bit_ops();
    }
    if lz < 64 {
        assert((w >> ((63 - lz) as u64)) & 1u64 != 0u64);
        lemma_bit_ops();
        assert((w >> ((63 - lz) as u64)) & 1u64 == 1u64);
    }
}

} // verus!
