use crate::error::Result;
use crate::simd_portable::{header_bits, header_reference, header_of};
use vstd::prelude::*;

verus! {

const BLOCK_SIZE: usize = 16;
const ENCODING_BLOCK: usize = 32;
const HEADER_LENGTH: usize = 2;
const ENCODING_BLOCK_LENGTH: [usize; 17] = [
    0, 2, 4, 6, 8, 10, 12, 14, 16, 18, 20, 32, 32, 32, 32, 32, 32,
];

/// Bytes by which a legacy block of the given bit width advances the input.
pub open spec fn legacy_block_len(bits: u8) -> nat {
    if bits <= 10 {
        2 * bits as nat
    } else {
        32
    }
}

/// Bytes that decoding a legacy block of the given bit width reads.
/// The 7-bit layout reads two bytes per eight samples although it advances
/// the input by fourteen bytes.
pub open spec fn legacy_bytes_read(bits: u8) -> nat {
    if bits == 7 {
        4
    } else {
        legacy_block_len(bits)
    }
}

/// Width in bits of each sample of a legacy block: widths above 10 are
/// stored as full 16-bit samples.
pub open spec fn legacy_width(bits: u8) -> nat {
    if bits <= 10 {
        bits as nat
    } else {
        16
    }
}

/// The mask of the `w` lowest bits.
pub open spec fn low_mask(w: nat) -> u32 {
    if w == 0 {
        0
    } else if w == 1 {
        1
    } else if w == 2 {
        3
    } else if w == 3 {
        7
    } else if w == 4 {
        15
    } else if w == 5 {
        31
    } else if w == 6 {
        63
    } else if w == 7 {
        127
    } else if w == 8 {
        255
    } else if w == 9 {
        511
    } else if w == 10 {
        1023
    } else {
        65535
    }
}

/// Two bytes read as a big-endian 16-bit number.
pub open spec fn be_pair(hi: u8, lo: u8) -> u32 {
    (hi * 256 + lo) as u32
}

/// The 16 bits of the stream `b` that start at byte `p` (zero past its end).
pub open spec fn be_window(b: Seq<u8>, p: int) -> u32 {
    be_pair(b[p], if p + 1 < b.len() { b[p + 1] } else { 0 })
}

/// The `k`-th `w`-bit field of the byte stream `b`, bits taken most
/// significant first (for `w` of at most 10, or 16 on byte boundaries).
pub open spec fn msb_field(b: Seq<u8>, w: nat, k: int) -> u16 {
    ((be_window(b, (k * w) / 8) >> ((16 - (k * w) % 8 - w) as u32)) & low_mask(w)) as u16
}

/// Shifts that the 7-bit legacy layout applies to each byte pair.
pub open spec fn shift7(j: int) -> u32 {
    if j == 0 {
        9
    } else if j == 7 {
        0
    } else {
        (j + 1) as u32
    }
}

/// The `k`-th sample (of 16) of a legacy block of the given bit width whose
/// bytes start at `b[0]`.
///
/// Samples are the most-significant-first packing of `legacy_width(bits)`
/// bit fields, with two exceptions in the format: the 7-bit layout takes each group of eight samples as seven-bit
/// windows of a single byte pair, and the second sample of each 9-bit group
/// takes its high seven bits from the group's first byte.
pub open spec fn legacy_value(bits: u8, b: Seq<u8>, k: int) -> u16 {
    if bits == 7 {
        ((be_window(b, 2 * (k / 8)) >> shift7(k % 8)) & 127u32) as u16
    } else if bits == 9 && k % 8 == 1 {
        ((b[9 * (k / 8)] % 128) * 4 + b[9 * (k / 8) + 2] / 64) as u16
    } else {
        msb_field(b, legacy_width(bits), k)
    }
}

/// `out` holds, at `base .. base + 16`, the samples of a legacy block.
pub open spec fn holds_legacy_block(out: Seq<u16>, base: int, bits: u8, b: Seq<u8>) -> bool {
    forall|k: int| 0 <= k < 16 ==> out[base + k] == #[trigger] legacy_value(bits, b, k)
}

proof fn lemma_split8(o: int, g: int, j: int)
    requires
        o == 8 * g,
        0 <= j < 8,
    ensures
        (o + j) / 8 == g,
        (o + j) % 8 == j,
{
    vstd::arithmetic::div_mod::lemma_fundamental_div_mod_converse(o + j, 8, g, j);
}

proof fn lemma_field(b: Seq<u8>, w: nat, k: int, q: int, r: int)
    requires
        0 <= r < 8,
        k * w == 8 * q + r,
    ensures
        msb_field(b, w, k) == ((be_window(b, q) >> ((16 - r - w) as u32)) & low_mask(w)) as u16,
{
    vstd::arithmetic::div_mod::lemma_fundamental_div_mod_converse(k * w, 8, q, r);
}


proof fn bits_w3(b0: u8, b1: u8, b2: u8, nx: u8)
    by (bit_vector)
    ensures
        (b0 as u16 >> 5u16) & 7u16 == ((be_pair(b0, b1) >> 13u32) & 7u32) as u16,
        (b0 as u16 >> 2u16) & 7u16 == ((be_pair(b0, b1) >> 10u32) & 7u32) as u16,
        ((b0 as u16 & 3u16) << 1u16) | ((b1 as u16 >> 7u16) & 1u16) == ((be_pair(b0, b1) >> 7u32) & 7u32) as u16,
        (b1 as u16 >> 4u16) & 7u16 == ((be_pair(b1, b2) >> 12u32) & 7u32) as u16,
        (b1 as u16 >> 1u16) & 7u16 == ((be_pair(b1, b2) >> 9u32) & 7u32) as u16,
        ((b1 as u16 & 1u16) << 2u16) | ((b2 as u16 >> 6u16) & 3u16) == ((be_pair(b1, b2) >> 6u32) & 7u32) as u16,
        (b2 as u16 >> 3u16) & 7u16 == ((be_pair(b2, nx) >> 11u32) & 7u32) as u16,
        b2 as u16 & 7u16 == ((be_pair(b2, nx) >> 8u32) & 7u32) as u16,
{
}

/// The eight samples of a 3-bit group starting at byte `i` (sample `o`).
pub proof fn lemma_group3(b: Seq<u8>, o: int, i: int)
    requires
        0 <= i,
        i + 3 <= b.len(),
        3 * o == 8 * i,
    ensures
        legacy_value(3, b, o) == (b[i] as u16 >> 5u16) & 7u16,
        legacy_value(3, b, o + 1) == (b[i] as u16 >> 2u16) & 7u16,
        legacy_value(3, b, o + 2) == ((b[i] as u16 & 3u16) << 1u16) | ((b[i + 1] as u16 >> 7u16) & 1u16),
        legacy_value(3, b, o + 3) == (b[i + 1] as u16 >> 4u16) & 7u16,
        legacy_value(3, b, o + 4) == (b[i + 1] as u16 >> 1u16) & 7u16,
        legacy_value(3, b, o + 5) == ((b[i + 1] as u16 & 1u16) << 2u16) | ((b[i + 2] as u16 >> 6u16) & 3u16),
        legacy_value(3, b, o + 6) == (b[i + 2] as u16 >> 3u16) & 7u16,
        legacy_value(3, b, o + 7) == b[i + 2] as u16 & 7u16,
{
    let nx: u8 = if i + 3 < b.len() { b[i + 3] } else { 0 };
    bits_w3(b[i], b[i + 1], b[i + 2], nx);
    lemma_field(b, 3, o, i, 0);
    lemma_field(b, 3, o + 1, i, 3);
    lemma_field(b, 3, o + 2, i, 6);
    lemma_field(b, 3, o + 3, i + 1, 1);
    lemma_field(b, 3, o + 4, i + 1, 4);
    lemma_field(b, 3, o + 5, i + 1, 7);
    lemma_field(b, 3, o + 6, i + 2, 2);
    lemma_field(b, 3, o + 7, i + 2, 5);
}

proof fn bits_w1(b: u8, nx: u8)
    by (bit_vector)
    ensures
        (b as u16 >> 7u16) & 1u16 == ((be_pair(b, nx) >> 15u32) & 1u32) as u16,
        (b as u16 >> 6u16) & 1u16 == ((be_pair(b, nx) >> 14u32) & 1u32) as u16,
        (b as u16 >> 5u16) & 1u16 == ((be_pair(b, nx) >> 13u32) & 1u32) as u16,
        (b as u16 >> 4u16) & 1u16 == ((be_pair(b, nx) >> 12u32) & 1u32) as u16,
        (b as u16 >> 3u16) & 1u16 == ((be_pair(b, nx) >> 11u32) & 1u32) as u16,
        (b as u16 >> 2u16) & 1u16 == ((be_pair(b, nx) >> 10u32) & 1u32) as u16,
        (b as u16 >> 1u16) & 1u16 == ((be_pair(b, nx) >> 9u32) & 1u32) as u16,
        b as u16 & 1u16 == ((be_pair(b, nx) >> 8u32) & 1u32) as u16,
{
}

/// The eight samples of a 1-bit block taken from byte `i`.
pub proof fn lemma_group1(b: Seq<u8>, o: int, i: int)
    requires
        0 <= i,
        i + 1 <= b.len(),
        o == 8 * i,
    ensures
        legacy_value(1, b, o) == (b[i] as u16 >> 7u16) & 1u16,
        legacy_value(1, b, o + 1) == (b[i] as u16 >> 6u16) & 1u16,
        legacy_value(1, b, o + 2) == (b[i] as u16 >> 5u16) & 1u16,
        legacy_value(1, b, o + 3) == (b[i] as u16 >> 4u16) & 1u16,
        legacy_value(1, b, o + 4) == (b[i] as u16 >> 3u16) & 1u16,
        legacy_value(1, b, o + 5) == (b[i] as u16 >> 2u16) & 1u16,
        legacy_value(1, b, o + 6) == (b[i] as u16 >> 1u16) & 1u16,
        legacy_value(1, b, o + 7) == b[i] as u16 & 1u16,
{
    let nx: u8 = if i + 1 < b.len() { b[i + 1] } else { 0 };
    bits_w1(b[i], nx);
    lemma_field(b, 1, o, i, 0);
    lemma_field(b, 1, o + 1, i, 1);
    lemma_field(b, 1, o + 2, i, 2);
    lemma_field(b, 1, o + 3, i, 3);
    lemma_field(b, 1, o + 4, i, 4);
    lemma_field(b, 1, o + 5, i, 5);
    lemma_field(b, 1, o + 6, i, 6);
    lemma_field(b, 1, o + 7, i, 7);
}

proof fn bits_w2(b: u8, nx: u8)
    by (bit_vector)
    ensures
        (b as u16 >> 6u16) & 3u16 == ((be_pair(b, nx) >> 14u32) & 3u32) as u16,
        (b as u16 >> 4u16) & 3u16 == ((be_pair(b, nx) >> 12u32) & 3u32) as u16,
        (b as u16 >> 2u16) & 3u16 == ((be_pair(b, nx) >> 10u32) & 3u32) as u16,
        b as u16 & 3u16 == ((be_pair(b, nx) >> 8u32) & 3u32) as u16,
{
}

/// The four samples of a 2-bit block taken from byte `i`.
pub proof fn lemma_group2(b: Seq<u8>, o: int, i: int)
    requires
        0 <= i,
        i + 1 <= b.len(),
        o == 4 * i,
    ensures
        legacy_value(2, b, o) == (b[i] as u16 >> 6u16) & 3u16,
        legacy_value(2, b, o + 1) == (b[i] as u16 >> 4u16) & 3u16,
        legacy_value(2, b, o + 2) == (b[i] as u16 >> 2u16) & 3u16,
        legacy_value(2, b, o + 3) == b[i] as u16 & 3u16,
{
    let nx: u8 = if i + 1 < b.len() { b[i + 1] } else { 0 };
    bits_w2(b[i], nx);
    lemma_field(b, 2, o, i, 0);
    lemma_field(b, 2, o + 1, i, 2);
    lemma_field(b, 2, o + 2, i, 4);
    lemma_field(b, 2, o + 3, i, 6);
}

proof fn bits_w4(b: u8, nx: u8)
    by (bit_vector)
    ensures
        (b as u16 >> 4u16) & 15u16 == ((be_pair(b, nx) >> 12u32) & 15u32) as u16,
        b as u16 & 15u16 == ((be_pair(b, nx) >> 8u32) & 15u32) as u16,
{
}

/// The two samples of a 4-bit block taken from byte `i`.
pub proof fn lemma_group4(b: Seq<u8>, o: int, i: int)
    requires
        0 <= i,
        i + 1 <= b.len(),
        o == 2 * i,
    ensures
        legacy_value(4, b, o) == (b[i] as u16 >> 4u16) & 15u16,
        legacy_value(4, b, o + 1) == b[i] as u16 & 15u16,
{
    let nx: u8 = if i + 1 < b.len() { b[i + 1] } else { 0 };
    bits_w4(b[i], nx);
    lemma_field(b, 4, o, i, 0);
    lemma_field(b, 4, o + 1, i, 4);
}

proof fn bits_w5(b0: u8, b1: u8, b2: u8, b3: u8, b4: u8, nx: u8)
    by (bit_vector)
    ensures
        (b0 as u16 >> 3u16) & 31u16 == ((be_pair(b0, b1) >> 11u32) & 31u32) as u16,
        ((b0 as u16 & 7u16) << 2u16) | ((b1 as u16 >> 6u16) & 3u16) == ((be_pair(b0, b1) >> 6u32) & 31u32) as u16,
        (b1 as u16 >> 1u16) & 31u16 == ((be_pair(b1, b2) >> 9u32) & 31u32) as u16,
        ((b1 as u16 & 1u16) << 4u16) | ((b2 as u16 >> 4u16) & 15u16) == ((be_pair(b1, b2) >> 4u32) & 31u32) as u16,
        ((b2 as u16 & 15u16) << 1u16) | ((b3 as u16 >> 7u16) & 1u16) == ((be_pair(b2, b3) >> 7u32) & 31u32) as u16,
        (b3 as u16 >> 2u16) & 31u16 == ((be_pair(b3, b4) >> 10u32) & 31u32) as u16,
        ((b3 as u16 & 3u16) << 3u16) | ((b4 as u16 >> 5u16) & 7u16) == ((be_pair(b3, b4) >> 5u32) & 31u32) as u16,
        b4 as u16 & 31u16 == ((be_pair(b4, nx) >> 8u32) & 31u32) as u16,
{
}

/// The eight samples of a 5-bit group starting at byte `i`.
pub proof fn lemma_group5(b: Seq<u8>, o: int, i: int)
    requires
        0 <= i,
        i + 5 <= b.len(),
        5 * o == 8 * i,
    ensures
        legacy_value(5, b, o) == (b[i] as u16 >> 3u16) & 31u16,
        legacy_value(5, b, o + 1) == ((b[i] as u16 & 7u16) << 2u16) | ((b[i + 1] as u16 >> 6u16) & 3u16),
        legacy_value(5, b, o + 2) == (b[i + 1] as u16 >> 1u16) & 31u16,
        legacy_value(5, b, o + 3) == ((b[i + 1] as u16 & 1u16) << 4u16) | ((b[i + 2] as u16 >> 4u16) & 15u16),
        legacy_value(5, b, o + 4) == ((b[i + 2] as u16 & 15u16) << 1u16) | ((b[i + 3] as u16 >> 7u16) & 1u16),
        legacy_value(5, b, o + 5) == (b[i + 3] as u16 >> 2u16) & 31u16,
        legacy_value(5, b, o + 6) == ((b[i + 3] as u16 & 3u16) << 3u16) | ((b[i + 4] as u16 >> 5u16) & 7u16),
        legacy_value(5, b, o + 7) == b[i + 4] as u16 & 31u16,
{
    let nx: u8 = if i + 5 < b.len() { b[i + 5] } else { 0 };
    bits_w5(b[i], b[i + 1], b[i + 2], b[i + 3], b[i + 4], nx);
    lemma_field(b, 5, o, i, 0);
    lemma_field(b, 5, o + 1, i, 5);
    lemma_field(b, 5, o + 2, i + 1, 2);
    lemma_field(b, 5, o + 3, i + 1, 7);
    lemma_field(b, 5, o + 4, i + 2, 4);
    lemma_field(b, 5, o + 5, i + 3, 1);
    lemma_field(b, 5, o + 6, i + 3, 6);
    lemma_field(b, 5, o + 7, i + 4, 3);
}

proof fn bits_w6(b0: u8, b1: u8, b2: u8, b3: u8, b4: u8, b5: u8, nx: u8)
    by (bit_vector)
    ensures
        (b0 as u16 >> 2u16) & 63u16 == ((be_pair(b0, b1) >> 10u32) & 63u32) as u16,
        ((b0 as u16 & 3u16) << 4u16) | ((b1 as u16 >> 4u16) & 15u16) == ((be_pair(b0, b1) >> 4u32) & 63u32) as u16,
        ((b1 as u16 & 15u16) << 2u16) | ((b2 as u16 >> 6u16) & 3u16) == ((be_pair(b1, b2) >> 6u32) & 63u32) as u16,
        b2 as u16 & 63u16 == ((be_pair(b2, b3) >> 8u32) & 63u32) as u16,
        (b3 as u16 >> 2u16) & 63u16 == ((be_pair(b3, b4) >> 10u32) & 63u32) as u16,
        ((b3 as u16 & 3u16) << 4u16) | ((b4 as u16 >> 4u16) & 15u16) == ((be_pair(b3, b4) >> 4u32) & 63u32) as u16,
        ((b4 as u16 & 15u16) << 2u16) | ((b5 as u16 >> 6u16) & 3u16) == ((be_pair(b4, b5) >> 6u32) & 63u32) as u16,
        b5 as u16 & 63u16 == ((be_pair(b5, nx) >> 8u32) & 63u32) as u16,
{
}

/// The eight samples of a 6-bit group starting at byte `i`.
pub proof fn lemma_group6(b: Seq<u8>, o: int, i: int)
    requires
        0 <= i,
        i + 6 <= b.len(),
        6 * o == 8 * i,
    ensures
        legacy_value(6, b, o) == (b[i] as u16 >> 2u16) & 63u16,
        legacy_value(6, b, o + 1) == ((b[i] as u16 & 3u16) << 4u16) | ((b[i + 1] as u16 >> 4u16) & 15u16),
        legacy_value(6, b, o + 2) == ((b[i + 1] as u16 & 15u16) << 2u16) | ((b[i + 2] as u16 >> 6u16) & 3u16),
        legacy_value(6, b, o + 3) == b[i + 2] as u16 & 63u16,
        legacy_value(6, b, o + 4) == (b[i + 3] as u16 >> 2u16) & 63u16,
        legacy_value(6, b, o + 5) == ((b[i + 3] as u16 & 3u16) << 4u16) | ((b[i + 4] as u16 >> 4u16) & 15u16),
        legacy_value(6, b, o + 6) == ((b[i + 4] as u16 & 15u16) << 2u16) | ((b[i + 5] as u16 >> 6u16) & 3u16),
        legacy_value(6, b, o + 7) == b[i + 5] as u16 & 63u16,
{
    let nx: u8 = if i + 6 < b.len() { b[i + 6] } else { 0 };
    bits_w6(b[i], b[i + 1], b[i + 2], b[i + 3], b[i + 4], b[i + 5], nx);
    lemma_field(b, 6, o, i, 0);
    lemma_field(b, 6, o + 1, i, 6);
    lemma_field(b, 6, o + 2, i + 1, 4);
    lemma_field(b, 6, o + 3, i + 2, 2);
    lemma_field(b, 6, o + 4, i + 3, 0);
    lemma_field(b, 6, o + 5, i + 3, 6);
    lemma_field(b, 6, o + 6, i + 4, 4);
    lemma_field(b, 6, o + 7, i + 5, 2);
}

proof fn bits_w7(b0: u8, b1: u8)
    by (bit_vector)
    ensures
        (b0 as u16 >> 1u16) & 127u16 == ((be_pair(b0, b1) >> 9u32) & 127u32) as u16,
        ((b0 as u16 & 1u16) << 6u16) | ((b1 as u16 >> 2u16) & 63u16) == ((be_pair(b0, b1) >> 2u32) & 127u32) as u16,
        ((b0 as u16 & 3u16) << 5u16) | ((b1 as u16 >> 3u16) & 31u16) == ((be_pair(b0, b1) >> 3u32) & 127u32) as u16,
        ((b0 as u16 & 7u16) << 4u16) | ((b1 as u16 >> 4u16) & 15u16) == ((be_pair(b0, b1) >> 4u32) & 127u32) as u16,
        ((b0 as u16 & 15u16) << 3u16) | ((b1 as u16 >> 5u16) & 7u16) == ((be_pair(b0, b1) >> 5u32) & 127u32) as u16,
        ((b0 as u16 & 31u16) << 2u16) | ((b1 as u16 >> 6u16) & 3u16) == ((be_pair(b0, b1) >> 6u32) & 127u32) as u16,
        ((b0 as u16 & 63u16) << 1u16) | ((b1 as u16 >> 7u16) & 1u16) == ((be_pair(b0, b1) >> 7u32) & 127u32) as u16,
        b1 as u16 & 127u16 == ((be_pair(b0, b1) >> 0u32) & 127u32) as u16,
{
}

/// The eight samples of a 7-bit group, all taken from the byte pair at `i`.
pub proof fn lemma_group7(b: Seq<u8>, o: int, i: int, g: int)
    requires
        0 <= g,
        o == 8 * g,
        i == 2 * g,
        i + 2 <= b.len(),
    ensures
        legacy_value(7, b, o) == (b[i] as u16 >> 1u16) & 127u16,
        legacy_value(7, b, o + 1) == ((b[i] as u16 & 1u16) << 6u16) | ((b[i + 1] as u16 >> 2u16) & 63u16),
        legacy_value(7, b, o + 2) == ((b[i] as u16 & 3u16) << 5u16) | ((b[i + 1] as u16 >> 3u16) & 31u16),
        legacy_value(7, b, o + 3) == ((b[i] as u16 & 7u16) << 4u16) | ((b[i + 1] as u16 >> 4u16) & 15u16),
        legacy_value(7, b, o + 4) == ((b[i] as u16 & 15u16) << 3u16) | ((b[i + 1] as u16 >> 5u16) & 7u16),
        legacy_value(7, b, o + 5) == ((b[i] as u16 & 31u16) << 2u16) | ((b[i + 1] as u16 >> 6u16) & 3u16),
        legacy_value(7, b, o + 6) == ((b[i] as u16 & 63u16) << 1u16) | ((b[i + 1] as u16 >> 7u16) & 1u16),
        legacy_value(7, b, o + 7) == b[i + 1] as u16 & 127u16,
{
    bits_w7(b[i], b[i + 1]);
    lemma_split8(o, g, 0);
    lemma_split8(o, g, 1);
    lemma_split8(o, g, 2);
    lemma_split8(o, g, 3);
    lemma_split8(o, g, 4);
    lemma_split8(o, g, 5);
    lemma_split8(o, g, 6);
    lemma_split8(o, g, 7);
}

proof fn bits_w8(b: u8, nx: u8)
    by (bit_vector)
    ensures
        b as u16 == ((be_pair(b, nx) >> 8u32) & 255u32) as u16,
{
}

/// A sample of an 8-bit block is its byte.
pub proof fn lemma_group8(b: Seq<u8>, i: int)
    requires
        0 <= i,
        i + 1 <= b.len(),
    ensures
        legacy_value(8, b, i) == b[i] as u16,
{
    let nx: u8 = if i + 1 < b.len() { b[i + 1] } else { 0 };
    bits_w8(b[i], nx);
    lemma_field(b, 8, i, i, 0);
}

proof fn bits_w9(b0: u8, b1: u8, b2: u8, b3: u8, b4: u8, b5: u8, b6: u8, b7: u8, b8: u8)
    by (bit_vector)
    ensures
        ((b0 as u16) << 1u16) | ((b1 as u16 >> 7u16) & 1u16) == ((be_pair(b0, b1) >> 7u32) & 511u32) as u16,
        ((b0 as u16 & 127u16) << 2u16) | ((b2 as u16 >> 6u16) & 3u16) == ((b0 % 128) * 4 + b2 / 64) as u16,
        ((b2 as u16 & 63u16) << 3u16) | ((b3 as u16 >> 5u16) & 7u16) == ((be_pair(b2, b3) >> 5u32) & 511u32) as u16,
        ((b3 as u16 & 31u16) << 4u16) | ((b4 as u16 >> 4u16) & 15u16) == ((be_pair(b3, b4) >> 4u32) & 511u32) as u16,
        ((b4 as u16 & 15u16) << 5u16) | ((b5 as u16 >> 3u16) & 31u16) == ((be_pair(b4, b5) >> 3u32) & 511u32) as u16,
        ((b5 as u16 & 7u16) << 6u16) | ((b6 as u16 >> 2u16) & 63u16) == ((be_pair(b5, b6) >> 2u32) & 511u32) as u16,
        ((b6 as u16 & 3u16) << 7u16) | ((b7 as u16 >> 1u16) & 127u16) == ((be_pair(b6, b7) >> 1u32) & 511u32) as u16,
        ((b7 as u16 & 1u16) << 8u16) | (b8 as u16) == ((be_pair(b7, b8) >> 0u32) & 511u32) as u16,
{
}

/// The eight samples of a 9-bit group starting at byte `i`.
pub proof fn lemma_group9(b: Seq<u8>, o: int, i: int, g: int)
    requires
        0 <= g,
        o == 8 * g,
        i == 9 * g,
        i + 9 <= b.len(),
    ensures
        legacy_value(9, b, o) == ((b[i] as u16) << 1u16) | ((b[i + 1] as u16 >> 7u16) & 1u16),
        legacy_value(9, b, o + 1) == ((b[i] as u16 & 127u16) << 2u16) | ((b[i + 2] as u16 >> 6u16) & 3u16),
        legacy_value(9, b, o + 2) == ((b[i + 2] as u16 & 63u16) << 3u16) | ((b[i + 3] as u16 >> 5u16) & 7u16),
        legacy_value(9, b, o + 3) == ((b[i + 3] as u16 & 31u16) << 4u16) | ((b[i + 4] as u16 >> 4u16) & 15u16),
        legacy_value(9, b, o + 4) == ((b[i + 4] as u16 & 15u16) << 5u16) | ((b[i + 5] as u16 >> 3u16) & 31u16),
        legacy_value(9, b, o + 5) == ((b[i + 5] as u16 & 7u16) << 6u16) | ((b[i + 6] as u16 >> 2u16) & 63u16),
        legacy_value(9, b, o + 6) == ((b[i + 6] as u16 & 3u16) << 7u16) | ((b[i + 7] as u16 >> 1u16) & 127u16),
        legacy_value(9, b, o + 7) == ((b[i + 7] as u16 & 1u16) << 8u16) | (b[i + 8] as u16),
{
    bits_w9(b[i], b[i + 1], b[i + 2], b[i + 3], b[i + 4], b[i + 5], b[i + 6], b[i + 7], b[i + 8]);
    lemma_split8(o, g, 0);
    lemma_split8(o, g, 1);
    lemma_split8(o, g, 2);
    lemma_split8(o, g, 3);
    lemma_split8(o, g, 4);
    lemma_split8(o, g, 5);
    lemma_split8(o, g, 6);
    lemma_split8(o, g, 7);
    lemma_field(b, 9, o, i, 0);
    lemma_field(b, 9, o + 2, i + 2, 2);
    lemma_field(b, 9, o + 3, i + 3, 3);
    lemma_field(b, 9, o + 4, i + 4, 4);
    lemma_field(b, 9, o + 5, i + 5, 5);
    lemma_field(b, 9, o + 6, i + 6, 6);
    lemma_field(b, 9, o + 7, i + 7, 7);
}

proof fn bits_w10(b0: u8, b1: u8, b2: u8, b3: u8, b4: u8)
    by (bit_vector)
    ensures
        ((b0 as u16) << 2u16) | ((b1 as u16 >> 6u16) & 3u16) == ((be_pair(b0, b1) >> 6u32) & 1023u32) as u16,
        ((b1 as u16 & 63u16) << 4u16) | ((b2 as u16 >> 4u16) & 15u16) == ((be_pair(b1, b2) >> 4u32) & 1023u32) as u16,
        ((b2 as u16 & 15u16) << 6u16) | ((b3 as u16 >> 2u16) & 63u16) == ((be_pair(b2, b3) >> 2u32) & 1023u32) as u16,
        ((b3 as u16 & 3u16) << 8u16) | (b4 as u16) == ((be_pair(b3, b4) >> 0u32) & 1023u32) as u16,
{
}

/// The four samples of a 10-bit group starting at byte `i`.
pub proof fn lemma_group10(b: Seq<u8>, o: int, i: int)
    requires
        0 <= i,
        i + 5 <= b.len(),
        10 * o == 8 * i,
    ensures
        legacy_value(10, b, o) == ((b[i] as u16) << 2u16) | ((b[i + 1] as u16 >> 6u16) & 3u16),
        legacy_value(10, b, o + 1) == ((b[i + 1] as u16 & 63u16) << 4u16) | ((b[i + 2] as u16 >> 4u16) & 15u16),
        legacy_value(10, b, o + 2) == ((b[i + 2] as u16 & 15u16) << 6u16) | ((b[i + 3] as u16 >> 2u16) & 63u16),
        legacy_value(10, b, o + 3) == ((b[i + 3] as u16 & 3u16) << 8u16) | (b[i + 4] as u16),
{
    bits_w10(b[i], b[i + 1], b[i + 2], b[i + 3], b[i + 4]);
    lemma_field(b, 10, o, i, 0);
    lemma_field(b, 10, o + 1, i + 1, 2);
    lemma_field(b, 10, o + 2, i + 2, 4);
    lemma_field(b, 10, o + 3, i + 3, 6);
}

proof fn bits_w16(b0: u8, b1: u8)
    by (bit_vector)
    ensures
        ((b0 as u16) << 8u16) | (b1 as u16) == ((be_pair(b0, b1) >> 0u32) & 65535u32) as u16,
{
}

/// A sample of a block of width above 10 is a big-endian 16-bit word.
pub proof fn lemma_group16(bits: u8, b: Seq<u8>, k: int)
    requires
        11 <= bits <= 16,
        0 <= k,
        2 * k + 2 <= b.len(),
    ensures
        legacy_value(bits, b, k) == ((b[2 * k] as u16) << 8u16) | (b[2 * k + 1] as u16),
{
    bits_w16(b[2 * k], b[2 * k + 1]);
    lemma_field(b, 16, k, 2 * k, 0);
}

/// `out` holds the first `n` samples of a legacy block and keeps, past the
/// block, what `prev` held.
pub open spec fn legacy_filled(out: Seq<u16>, prev: Seq<u16>, bits: u8, b: Seq<u8>, n: int) -> bool {
    &&& out.len() == prev.len()
    &&& out.len() >= 16
    &&& forall|k: int| 0 <= k < n ==> out[k] == #[trigger] legacy_value(bits, b, k)
    &&& forall|k: int| 16 <= k < out.len() ==> out[k] == prev[k]
}

/// Decodes one legacy block of 16 samples of the given bit width from `inp`
/// into `out[0..16]`, and returns the number of input bytes the block takes.
fn decode_block_legacy(out: &mut [u16], bits: u8, inp: &[u8]) -> (r: usize)
    requires
        old(out)@.len() >= 16,
        bits <= 16,
        inp@.len() >= legacy_bytes_read(bits),
    ensures
        legacy_filled(final(out)@, old(out)@, bits, inp@, 16),
        r == legacy_block_len(bits),
{
    let ghost prev = out@;
    match bits {
        0 => {
            let mut k: usize = 0;
            while k < BLOCK_SIZE
                invariant
                    k <= 16,
                    bits == 0,
                    legacy_filled(out@, prev, bits, inp@, k as int),
                decreases 16 - k,
            {
                out[k] = 0;
                proof {
                    lemma_field(inp@, 0, k as int, 0, 0);
                    assert((be_window(inp@, 0) >> 16u32) & 0u32 == 0u32) by (bit_vector);
                }
                k = k + 1;
            }
        },
        1 => {
            let mut i: usize = 0;
            while i < BLOCK_SIZE / 8
                invariant
                    i <= 2,
                    bits == 1,
                    inp@.len() >= 2,
                    legacy_filled(out@, prev, bits, inp@, 8 * i),
                decreases 2 - i,
            {
                let b = inp[i] as u16;
                out[i * 8] = (b >> 7) & 1;
                out[i * 8 + 1] = (b >> 6) & 1;
                out[i * 8 + 2] = (b >> 5) & 1;
                out[i * 8 + 3] = (b >> 4) & 1;
                out[i * 8 + 4] = (b >> 3) & 1;
                out[i * 8 + 5] = (b >> 2) & 1;
                out[i * 8 + 6] = (b >> 1) & 1;
                out[i * 8 + 7] = b & 1;
                proof {
                    lemma_group1(inp@, 8 * i, i as int);
                }
                i = i + 1;
            }
        },
        2 => {
            let mut i: usize = 0;
            while i < BLOCK_SIZE / 4
                invariant
                    i <= 4,
                    bits == 2,
                    inp@.len() >= 4,
                    legacy_filled(out@, prev, bits, inp@, 4 * i),
                decreases 4 - i,
            {
                let b = inp[i] as u16;
                out[i * 4] = (b >> 6) & 3;
                out[i * 4 + 1] = (b >> 4) & 3;
                out[i * 4 + 2] = (b >> 2) & 3;
                out[i * 4 + 3] = b & 3;
                proof {
                    lemma_group2(inp@, 4 * i, i as int);
                }
                i = i + 1;
            }
        },
        3 => {
            let mut o: usize = 0;
            let mut i: usize = 0;
            while o < BLOCK_SIZE
                invariant
                    o <= 16,
                    o % 8 == 0,
                    3 * o == 8 * i,
                    bits == 3,
                    inp@.len() >= 6,
                    legacy_filled(out@, prev, bits, inp@, o as int),
                decreases 16 - o,
            {
                let b0 = inp[i] as u16;
                let b1 = inp[i + 1] as u16;
                out[o] = (b0 >> 5) & 7;
                out[o + 1] = (b0 >> 2) & 7;
                out[o + 2] = ((b0 & 3) << 1) | ((b1 >> 7) & 1);
                out[o + 3] = (b1 >> 4) & 7;
                out[o + 4] = (b1 >> 1) & 7;
                out[o + 5] = ((b1 & 1) << 2) | ((inp[i + 2] as u16 >> 6) & 3);
                out[o + 6] = (inp[i + 2] as u16 >> 3) & 7;
                out[o + 7] = inp[i + 2] as u16 & 7;
                proof {
                    lemma_group3(inp@, o as int, i as int);
                }
                i = i + 3;
                o = o + 8;
            }
        },
        4 => {
            let mut i: usize = 0;
            while i < BLOCK_SIZE / 2
                invariant
                    i <= 8,
                    bits == 4,
                    inp@.len() >= 8,
                    legacy_filled(out@, prev, bits, inp@, 2 * i),
                decreases 8 - i,
            {
                let b = inp[i] as u16;
                out[i * 2] = (b >> 4) & 0xF;
                out[i * 2 + 1] = b & 0xF;
                proof {
                    lemma_group4(inp@, 2 * i, i as int);
                }
                i = i + 1;
            }
        },
        5 => {
            let mut o: usize = 0;
            let mut i: usize = 0;
            while o < BLOCK_SIZE
                invariant
                    o <= 16,
                    o % 8 == 0,
                    5 * o == 8 * i,
                    bits == 5,
                    inp@.len() >= 10,
                    legacy_filled(out@, prev, bits, inp@, o as int),
                decreases 16 - o,
            {
                let b0 = inp[i] as u16;
                let b1 = inp[i + 1] as u16;
                let b2 = inp[i + 2] as u16;
                let b3 = inp[i + 3] as u16;
                let b4 = inp[i + 4] as u16;
                out[o] = (b0 >> 3) & 0x1F;
                out[o + 1] = ((b0 & 7) << 2) | ((b1 >> 6) & 3);
                out[o + 2] = (b1 >> 1) & 0x1F;
                out[o + 3] = ((b1 & 1) << 4) | ((b2 >> 4) & 0xF);
                out[o + 4] = ((b2 & 0xF) << 1) | ((b3 >> 7) & 1);
                out[o + 5] = (b3 >> 2) & 0x1F;
                out[o + 6] = ((b3 & 3) << 3) | ((b4 >> 5) & 7);
                out[o + 7] = b4 & 0x1F;
                proof {
                    lemma_group5(inp@, o as int, i as int);
                }
                i = i + 5;
                o = o + 8;
            }
        },
        6 => {
            let mut o: usize = 0;
            let mut i: usize = 0;
            while o < BLOCK_SIZE
                invariant
                    o <= 16,
                    o % 8 == 0,
                    6 * o == 8 * i,
                    bits == 6,
                    inp@.len() >= 12,
                    legacy_filled(out@, prev, bits, inp@, o as int),
                decreases 16 - o,
            {
                let b0 = inp[i] as u16;
                let b1 = inp[i + 1] as u16;
                let b2 = inp[i + 2] as u16;
                let b3 = inp[i + 3] as u16;
                out[o] = (b0 >> 2) & 0x3F;
                out[o + 1] = ((b0 & 3) << 4) | ((b1 >> 4) & 0xF);
                out[o + 2] = ((b1 & 0xF) << 2) | ((b2 >> 6) & 3);
                out[o + 3] = b2 & 0x3F;
                out[o + 4] = (b3 >> 2) & 0x3F;
                out[o + 5] = ((b3 & 3) << 4) | ((inp[i + 4] as u16 >> 4) & 0xF);
                out[o + 6] = ((inp[i + 4] as u16 & 0xF) << 2) | ((inp[i + 5] as u16 >> 6) & 3);
                out[o + 7] = inp[i + 5] as u16 & 0x3F;
                proof {
                    lemma_group6(inp@, o as int, i as int);
                }
                i = i + 6;
                o = o + 8;
            }
        },
        7 => {
            let mut o: usize = 0;
            let mut i: usize = 0;
            while o < BLOCK_SIZE
                invariant
                    o <= 16,
                    o % 8 == 0,
                    o == 4 * i,
                    bits == 7,
                    inp@.len() >= 4,
                    legacy_filled(out@, prev, bits, inp@, o as int),
                decreases 16 - o,
            {
                let b0 = inp[i] as u16;
                let b1 = inp[i + 1] as u16;
                out[o] = (b0 >> 1) & 0x7F;
                out[o + 1] = ((b0 & 1) << 6) | ((b1 >> 2) & 0x3F);
                out[o + 2] = ((b0 & 3) << 5) | ((b1 >> 3) & 0x1F);
                out[o + 3] = ((b0 & 7) << 4) | ((b1 >> 4) & 0xF);
                out[o + 4] = ((b0 & 0xF) << 3) | ((b1 >> 5) & 7);
                out[o + 5] = ((b0 & 0x1F) << 2) | ((b1 >> 6) & 3);
                out[o + 6] = ((b0 & 0x3F) << 1) | ((b1 >> 7) & 1);
                out[o + 7] = b1 & 0x7F;
                proof {
                    lemma_group7(inp@, o as int, i as int, (o / 8) as int);
                }
                i = i + 2;
                o = o + 8;
            }
        },
        8 => {
            let mut i: usize = 0;
            while i < BLOCK_SIZE
                invariant
                    i <= 16,
                    bits == 8,
                    inp@.len() >= 16,
                    legacy_filled(out@, prev, bits, inp@, i as int),
                decreases 16 - i,
            {
                out[i] = inp[i] as u16;
                proof {
                    lemma_group8(inp@, i as int);
                }
                i = i + 1;
            }
        },
        9 => {
            let mut o: usize = 0;
            let mut i: usize = 0;
            while o < BLOCK_SIZE
                invariant
                    o <= 16,
                    o % 8 == 0,
                    9 * o == 8 * i,
                    bits == 9,
                    inp@.len() >= 18,
                    legacy_filled(out@, prev, bits, inp@, o as int),
                decreases 16 - o,
            {
                let b0 = inp[i] as u16;
                let b1 = inp[i + 1] as u16;
                out[o] = (b0 << 1) | ((b1 >> 7) & 1);
                out[o + 1] = ((b0 & 0x7F) << 2) | ((inp[i + 2] as u16 >> 6) & 3);
                out[o + 2] = ((inp[i + 2] as u16 & 0x3F) << 3) | ((inp[i + 3] as u16 >> 5) & 7);
                out[o + 3] = ((inp[i + 3] as u16 & 0x1F) << 4) | ((inp[i + 4] as u16 >> 4) & 0xF);
                out[o + 4] = ((inp[i + 4] as u16 & 0xF) << 5) | ((inp[i + 5] as u16 >> 3) & 0x1F);
                out[o + 5] = ((inp[i + 5] as u16 & 7) << 6) | ((inp[i + 6] as u16 >> 2) & 0x3F);
                out[o + 6] = ((inp[i + 6] as u16 & 3) << 7) | ((inp[i + 7] as u16 >> 1) & 0x7F);
                out[o + 7] = ((inp[i + 7] as u16 & 1) << 8) | inp[i + 8] as u16;
                proof {
                    lemma_group9(inp@, o as int, i as int, (o / 8) as int);
                }
                i = i + 9;
                o = o + 8;
            }
        },
        10 => {
            let mut o: usize = 0;
            let mut i: usize = 0;
            while o < BLOCK_SIZE
                invariant
                    o <= 16,
                    o % 4 == 0,
                    10 * o == 8 * i,
                    bits == 10,
                    inp@.len() >= 20,
                    legacy_filled(out@, prev, bits, inp@, o as int),
                decreases 16 - o,
            {
                let b0 = inp[i] as u16;
                let b1 = inp[i + 1] as u16;
                let b2 = inp[i + 2] as u16;
                let b3 = inp[i + 3] as u16;
                let b4 = inp[i + 4] as u16;
                out[o] = (b0 << 2) | ((b1 >> 6) & 3);
                out[o + 1] = ((b1 & 0x3F) << 4) | ((b2 >> 4) & 0xF);
                out[o + 2] = ((b2 & 0xF) << 6) | ((b3 >> 2) & 0x3F);
                out[o + 3] = ((b3 & 3) << 8) | b4;
                proof {
                    lemma_group10(inp@, o as int, i as int);
                }
                i = i + 5;
                o = o + 4;
            }
        },
        _ => {
            let mut i: usize = 0;
            while i < BLOCK_SIZE
                invariant
                    i <= 16,
                    11 <= bits <= 16,
                    inp@.len() >= 32,
                    legacy_filled(out@, prev, bits, inp@, i as int),
                decreases 16 - i,
            {
                out[i] = ((inp[i * 2] as u16) << 8) | inp[i * 2 + 1] as u16;
                proof {
                    lemma_group16(bits, inp@, i as int);
                }
                i = i + 1;
            }
        },
    }
    ENCODING_BLOCK_LENGTH[bits as usize]
}

/// What one tile (two half blocks, 32 samples of a row) of a legacy frame
/// gives when its first header starts at `offset`.
pub enum LegacyTile {
    /// Too few bytes are left for a header: the row ends here, and the input
    /// position is left at the given offset.
    Stop(int),
    /// Decoding breaks down: a block reads past the input, a sample
    /// plus its reference overflows 16 bits, or an offset overflows.
    Fault,
    /// The 32 interleaved row samples and the offset after the tile.
    Next(Seq<u16>, int),
}

/// Sample `i` (of 32) of a tile: even samples come from the first half
/// block, odd ones from the second, each plus its block's reference.
pub open spec fn tile_sample(
    bits0: u8,
    blk0: Seq<u8>,
    ref0: u16,
    bits1: u8,
    blk1: Seq<u8>,
    ref1: u16,
    i: int,
) -> int {
    if i % 2 == 0 {
        legacy_value(bits0, blk0, i / 2) + ref0
    } else {
        legacy_value(bits1, blk1, i / 2) + ref1
    }
}

pub open spec fn legacy_tile(input: Seq<u8>, offset: int) -> LegacyTile {
    if offset + 2 > usize::MAX {
        LegacyTile::Fault
    } else if offset + 2 >= input.len() {
        LegacyTile::Stop(offset)
    } else {
        let bits0 = header_bits(input[offset]);
        let ref0 = header_reference(input[offset], input[offset + 1]);
        let o1 = offset + 2;
        let o2 = o1 + legacy_block_len(bits0);
        if o1 + legacy_bytes_read(bits0) > input.len() || o2 > usize::MAX || o2 + 2 > usize::MAX {
            LegacyTile::Fault
        } else if o2 + 2 >= input.len() {
            LegacyTile::Stop(o2)
        } else {
            let bits1 = header_bits(input[o2]);
            let ref1 = header_reference(input[o2], input[o2 + 1]);
            let o3 = o2 + 2;
            let o4 = o3 + legacy_block_len(bits1);
            let blk0 = input.subrange(o1, input.len() as int);
            let blk1 = input.subrange(o3, input.len() as int);
            if o3 + legacy_bytes_read(bits1) > input.len() || o4 > usize::MAX {
                LegacyTile::Fault
            } else if exists|i: int|
                0 <= i < 32 && #[trigger] tile_sample(bits0, blk0, ref0, bits1, blk1, ref1, i)
                    > u16::MAX {
                LegacyTile::Fault
            } else {
                LegacyTile::Next(
                    Seq::new(32, |i: int| tile_sample(bits0, blk0, ref0, bits1, blk1, ref1, i) as u16),
                    o4,
                )
            }
        }
    }
}

/// `row` with the 32 samples starting at `start` replaced by `vals`.
pub open spec fn splice_tile(row: Seq<u16>, start: int, vals: Seq<u16>) -> Seq<u16> {
    Seq::new(row.len(), |i: int| if start <= i < start + 32 { vals[i - start] } else { row[i] })
}

/// Decodes tiles `t .. ntiles` of one row: the input offset and the row
/// afterwards, or `None` where decoding breaks down.
pub open spec fn legacy_row(input: Seq<u8>, offset: int, row: Seq<u16>, t: nat, ntiles: nat) -> Option<
    (int, Seq<u16>),
>
    decreases ntiles - t,
{
    if t >= ntiles {
        Some((offset, row))
    } else {
        match legacy_tile(input, offset) {
            LegacyTile::Stop(o) => Some((o, row)),
            LegacyTile::Fault => None,
            LegacyTile::Next(vals, o) => legacy_row(input, o, splice_tile(row, (32 * t) as int, vals), t + 1, ntiles),
        }
    }
}

/// A decoded legacy tile interleaves its two half blocks: even columns
/// `2m` hold sample `m` of the first block plus its reference, odd
/// columns `2m + 1` sample `m` of the second block plus its reference, each
/// block read after its two-byte header.
pub proof fn lemma_legacy_tile_layout(input: Seq<u8>, offset: int, m: int)
    requires
        0 <= m < 16,
    ensures
        legacy_tile(input, offset) matches LegacyTile::Next(vals, _) ==> {
            let bits0 = header_bits(input[offset]);
            let ref0 = header_reference(input[offset], input[offset + 1]);
            let o2 = offset + 2 + legacy_block_len(bits0);
            let bits1 = header_bits(input[o2]);
            let ref1 = header_reference(input[o2], input[o2 + 1]);
            &&& vals[2 * m] == legacy_value(bits0, input.subrange(offset + 2, input.len() as int), m)
                + ref0
            &&& vals[2 * m + 1] == legacy_value(bits1, input.subrange(o2 + 2, input.len() as int), m)
                + ref1
        },
{
    assert((2 * m) % 2 == 0 && (2 * m) / 2 == m);
    assert((2 * m + 1) % 2 == 1 && (2 * m + 1) / 2 == m);
}

/// Decoding the tiles `t .. ntiles` of a row leaves the columns before
/// tile `t` as they were.
proof fn lemma_legacy_row_keeps(input: Seq<u8>, offset: int, row: Seq<u16>, t: nat, ntiles: nat)
    requires
        t <= ntiles,
    ensures
        legacy_row(input, offset, row, t, ntiles) matches Some((_, r)) ==> r.len() == row.len() && forall|
            k: int,
        | 0 <= k < 32 * t && k < row.len() ==> #[trigger] r[k] == row[k],
    decreases ntiles - t,
{
    if t < ntiles {
        if let LegacyTile::Next(vals, o) = legacy_tile(input, offset) {
            lemma_legacy_row_keeps(input, o, splice_tile(row, (32 * t) as int, vals), t + 1, ntiles);
        }
    }
}

/// The tiles of a legacy row land left to right: the tile decoded from the
/// row's input at `offset` as its `t`-th tile fills columns
/// `32 * t .. 32 * t + 32`, and the columns before it are left as they
/// were; where the input runs out before it, the row is left as it is.
pub proof fn lemma_legacy_row_tiles(input: Seq<u8>, offset: int, row: Seq<u16>, t: nat, ntiles: nat)
    requires
        t < ntiles,
        32 * ntiles <= row.len(),
    ensures
        legacy_row(input, offset, row, t, ntiles) matches Some((_, r)) ==> {
            &&& r.len() == row.len()
            &&& forall|k: int| 0 <= k < 32 * t ==> #[trigger] r[k] == row[k]
            &&& legacy_tile(input, offset) matches LegacyTile::Next(vals, _) ==> forall|c: int|
                0 <= c < 32 ==> #[trigger] r[32 * t + c] == vals[c]
            &&& legacy_tile(input, offset) is Stop ==> r == row
        },
{
    lemma_legacy_row_keeps(input, offset, row, t, ntiles);
    if let LegacyTile::Next(vals, o) = legacy_tile(input, offset) {
        let spliced = splice_tile(row, (32 * t) as int, vals);
        lemma_legacy_row_keeps(input, o, spliced, t + 1, ntiles);
        if let Some((_, r)) = legacy_row(input, o, spliced, t + 1, ntiles) {
            assert forall|c: int| 0 <= c < 32 implies #[trigger] r[32 * t + c] == vals[c] by {
                assert(r[32 * t + c] == spliced[32 * t + c]);
            }
        }
    }
}

/// Decodes rows `r .. height`: the first `width` samples of each, in order,
/// or `None` where decoding breaks down.  The row buffer carries
/// over from one row to the next.
pub open spec fn legacy_rows(
    input: Seq<u8>,
    width: nat,
    offset: int,
    row: Seq<u16>,
    r: nat,
    height: nat,
) -> Option<Seq<u16>>
    decreases height - r,
{
    if r >= height {
        Some(Seq::empty())
    } else {
        match legacy_row(input, offset, row, 0, row.len() / 32) {
            None => None,
            Some((o, row2)) => match legacy_rows(input, width, o, row2, r + 1, height) {
                None => None,
                Some(rest) => Some(row2.subrange(0, width as int) + rest),
            },
        }
    }
}

/// The rows of a legacy frame come out top to bottom: the first `width`
/// samples are the first `width` columns of the row decoded first, and the
/// rest are the rows decoded after it, from where its input ended and with
/// the row buffer it left.
pub proof fn lemma_legacy_rows_order(
    input: Seq<u8>,
    width: nat,
    offset: int,
    row: Seq<u16>,
    r: nat,
    height: nat,
)
    requires
        r < height,
        width <= row.len(),
    ensures
        legacy_rows(input, width, offset, row, r, height) matches Some(s) ==> (legacy_row(
            input,
            offset,
            row,
            0,
            row.len() / 32,
        ) matches Some((o, row2)) && s.subrange(0, width as int) == row2.subrange(0, width as int) && (
        legacy_rows(input, width, o, row2, r + 1, height) matches Some(rest) && s.subrange(
            width as int,
            s.len() as int,
        ) == rest)),
{
    lemma_legacy_row_len(input, offset, row, 0, row.len() / 32);
    if let Some((o, row2)) = legacy_row(input, offset, row, 0, row.len() / 32) {
        if let Some(rest) = legacy_rows(input, width, o, row2, r + 1, height) {
            let s = row2.subrange(0, width as int) + rest;
            assert(s.subrange(0, width as int) =~= row2.subrange(0, width as int));
            assert(s.subrange(width as int, s.len() as int) =~= rest);
        }
    }
}

/// Width of the row buffer: `width` rounded up to whole tiles of 32.
pub open spec fn legacy_padded_width(width: nat) -> int {
    (32 * ((width + 31) / 32)) as int
}

/// The samples of a legacy (type 6) frame of `height` rows of `width`
/// samples, or `None` where decoding breaks down.
pub open spec fn legacy_frame(input: Seq<u8>, width: nat, height: nat) -> Option<Seq<u16>> {
    if legacy_padded_width(width) > usize::MAX {
        None
    } else {
        legacy_rows(
            input,
            width,
            0,
            Seq::new(legacy_padded_width(width) as nat, |i: int| 0u16),
            0,
            height,
        )
    }
}

/// Decoding the tiles of a row keeps the row's length.
proof fn lemma_legacy_row_len(input: Seq<u8>, offset: int, row: Seq<u16>, t: nat, ntiles: nat)
    ensures
        legacy_row(input, offset, row, t, ntiles) matches Some((_, r)) ==> r.len() == row.len(),
    decreases ntiles - t,
{
    if t < ntiles {
        if let LegacyTile::Next(vals, o) = legacy_tile(input, offset) {
            lemma_legacy_row_len(input, o, splice_tile(row, (32 * t) as int, vals), t + 1, ntiles);
        }
    }
}

/// Decoding rows `r .. height` gives `width` samples for each.
proof fn lemma_legacy_rows_len(input: Seq<u8>, width: nat, offset: int, row: Seq<u16>, r: nat, height: nat)
    requires
        width <= row.len(),
        r <= height,
    ensures
        legacy_rows(input, width, offset, row, r, height) matches Some(s) ==> s.len() == (height - r)
            * width,
    decreases height - r,
{
    if r < height {
        lemma_legacy_row_len(input, offset, row, 0, row.len() / 32);
        if let Some((o, row2)) = legacy_row(input, offset, row, 0, row.len() / 32) {
            lemma_legacy_rows_len(input, width, o, row2, r + 1, height);
            assert((height - r) * width == width + (height - (r + 1)) * width) by (nonlinear_arith)
                requires
                    r < height,
            ;
            if let Some(rest) = legacy_rows(input, width, o, row2, r + 1, height) {
                assert((row2.subrange(0, width as int) + rest).len() == width + rest.len());
            }
        }
    } else {
        assert((height - r) * width == 0) by (nonlinear_arith)
            requires
                r == height,
        ;
    }
}

/// A decoded legacy frame holds `width * height` samples.
pub proof fn lemma_legacy_frame_len(input: Seq<u8>, width: nat, height: nat)
    ensures
        legacy_frame(input, width, height) matches Some(s) ==> s.len() == width * height,
{
    if legacy_padded_width(width) <= usize::MAX {
        lemma_legacy_rows_len(
            input,
            width,
            0,
            Seq::new(legacy_padded_width(width) as nat, |i: int| 0u16),
            0,
            height,
        );
        assert(height * width == width * height) by (nonlinear_arith);
    }
}

/// Reads a block header from the first two bytes of `inp`.
fn decode_header(inp: &[u8]) -> (r: (u8, u16))
    requires
        inp@.len() >= 2,
    ensures
        r == (header_bits(inp@[0]), header_reference(inp@[0], inp@[1])),
{
    let b0 = inp[0];
    let b1 = inp[1];
    header_of(b0, b1)
}

/// Bytes that decoding a block of the given width reads.
fn bytes_read(bits: u8) -> (r: usize)
    requires
        bits <= 16,
    ensures
        r == legacy_bytes_read(bits),
{
    if bits == 7 {
        4
    } else {
        ENCODING_BLOCK_LENGTH[bits as usize]
    }
}

/// Decodes the tile whose first header is at `offset` into `row[x..x + 32]`
/// (with `p` as scratch).  Returns the offset after it and whether the row
/// ended, or `None` where decoding breaks down.
fn decode_tile(input: &[u8], offset: usize, p: &mut [u16; 32], row: &mut Vec<u16>, x: usize) -> (r:
    Option<(usize, bool)>)
    requires
        x + 32 <= old(row)@.len(),
    ensures
        final(row)@.len() == old(row)@.len(),
        match legacy_tile(input@, offset as int) {
            LegacyTile::Stop(o) => r == Some((o as usize, true)) && o <= usize::MAX && final(row)@
                == old(row)@,
            LegacyTile::Fault => r is None,
            LegacyTile::Next(vals, o) => r == Some((o as usize, false)) && o <= usize::MAX
                && final(row)@ == splice_tile(old(row)@, x as int, vals),
        },
{
    let ghost inp = input@;
    if offset > usize::MAX - HEADER_LENGTH {
        return None;
    }
    if offset + HEADER_LENGTH >= input.len() {
        return Some((offset, true));
    }
    let (bits0, ref0) = decode_header(&input[offset..input.len()]);
    let mut offset = offset + HEADER_LENGTH;
    let ghost o1 = offset as int;
    let bits0 = bits0.min(16);
    assert(bits0 == header_bits(inp[o1 - 2]));
    if input.len() - offset < bytes_read(bits0) {
        return None;
    }
    if offset > usize::MAX - ENCODING_BLOCK_LENGTH[bits0 as usize] {
        return None;
    }
    let (p0, p1) = p.split_at_mut(BLOCK_SIZE);
    offset = offset + decode_block_legacy(p0, bits0, &input[offset..input.len()]);
    if offset > usize::MAX - HEADER_LENGTH {
        return None;
    }
    if offset + HEADER_LENGTH >= input.len() {
        return Some((offset, true));
    }
    let (bits1, ref1) = decode_header(&input[offset..input.len()]);
    offset = offset + HEADER_LENGTH;
    let ghost o3 = offset as int;
    let bits1 = bits1.min(16);
    if input.len() - offset < bytes_read(bits1) {
        return None;
    }
    if offset > usize::MAX - ENCODING_BLOCK_LENGTH[bits1 as usize] {
        return None;
    }
    offset = offset + decode_block_legacy(p1, bits1, &input[offset..input.len()]);
    let ghost blk0 = inp.subrange(o1, inp.len() as int);
    let ghost blk1 = inp.subrange(o3, inp.len() as int);
    assert(holds_legacy_block(p@, 0, bits0, blk0));
    assert(holds_legacy_block(p@, 16, bits1, blk1));
    let ghost prev = row@;
    let mut i: usize = 0;
    #[verifier::loop_isolation(false)]
    while i < ENCODING_BLOCK
        invariant
            i <= 32,
            i % 2 == 0,
            x + 32 <= row.len(),
            row@.len() == prev.len(),
            holds_legacy_block(p@, 0, bits0, blk0),
            holds_legacy_block(p@, 16, bits1, blk1),
            forall|j: int|
                0 <= j < i ==> #[trigger] tile_sample(bits0, blk0, ref0, bits1, blk1, ref1, j)
                    <= u16::MAX && row@[x + j] == tile_sample(
                    bits0,
                    blk0,
                    ref0,
                    bits1,
                    blk1,
                    ref1,
                    j,
                ) as u16,
            forall|j: int| 0 <= j < row@.len() && !(x <= j < x + i) ==> row@[j] == prev[j],
        decreases 32 - i,
    {
        let a = p[i / 2];
        proof {
            assert(tile_sample(bits0, blk0, ref0, bits1, blk1, ref1, i as int) == a + ref0);
        }
        if a > u16::MAX - ref0 {
            return None;
        }
        row[x + i] = a + ref0;
        let c = p[BLOCK_SIZE + i / 2];
        proof {
            assert((i + 1) / 2 == i / 2);
            assert(tile_sample(bits0, blk0, ref0, bits1, blk1, ref1, i + 1) == c + ref1);
        }
        if c > u16::MAX - ref1 {
            return None;
        }
        row[x + i + 1] = c + ref1;
        i = i + 2;
    }
    proof {
        let vals = Seq::new(
            32,
            |j: int| tile_sample(bits0, blk0, ref0, bits1, blk1, ref1, j) as u16,
        );
        assert(row@ =~= splice_tile(prev, x as int, vals));
    }
    Some((offset, false))
}

/// Decodes a legacy (type 6) frame into `output` like `decode_legacy`, and
/// returns `None` on exactly the inputs on which decoding breaks down (then `output` may hold a partly written frame).
pub fn decode_legacy_checked(output: &mut [u16], width: usize, height: usize, input: &[u8]) -> (r:
    Option<Result<usize>>)
    ensures
        final(output)@.len() == old(output)@.len(),
        r is None <==> (legacy_frame(input@, width as nat, height as nat) is None || width * height
            > old(output)@.len()),
        r matches Some(res) ==> {
            &&& res matches Ok(n) && n == width * height
            &&& legacy_frame(input@, width as nat, height as nat) matches Some(samples)
                && final(output)@ == samples + old(output)@.subrange(
                width * height,
                old(output)@.len() as int,
            )
        },
{
    let ghost inp = input@;
    let ghost out0 = output@;
    let tiles = width / ENCODING_BLOCK + if width % ENCODING_BLOCK != 0 {
        1
    } else {
        0
    };
    assert(tiles == (width + 31) / 32);
    if tiles > usize::MAX / ENCODING_BLOCK {
        assert(legacy_padded_width(width as nat) > usize::MAX);
        return None;
    }
    let padded_width = ENCODING_BLOCK * tiles;
    let out_len = output.len();
    let total = match width.checked_mul(height) {
        Some(t) => t,
        None => {
            assert(width * height > out_len);
            return None;
        },
    };
    if total > output.len() {
        return None;
    }
    let mut row = vec![0u16; padded_width];
    let ghost zeros = Seq::new(padded_width as nat, |i: int| 0u16);
    assert(row@ =~= zeros);
    let ghost full = legacy_rows(inp, width as nat, 0, zeros, 0, height as nat);
    assert(full == legacy_frame(inp, width as nat, height as nat));
    let mut offset: usize = 0;
    let mut out_idx: usize = 0;
    let mut p = [0u16; ENCODING_BLOCK];
    let mut y: usize = 0;
    #[verifier::loop_isolation(false)]
    while y < height
        invariant
            y <= height,
            row@.len() == padded_width,
            out_idx == y * width,
            total == width * height,
            total <= out0.len(),
            out_idx <= total,
            output@.len() == out0.len(),
            forall|k: int| total <= k < out0.len() ==> output@[k] == out0[k],
            legacy_rows(inp, width as nat, offset as int, row@, y as nat, height as nat) matches Some(
                rest,
            ) ==> full == Some(output@.subrange(0, out_idx as int) + rest),
            legacy_rows(inp, width as nat, offset as int, row@, y as nat, height as nat) is None
                ==> full is None,
        decreases height - y,
    {
        let ghost off0 = offset as int;
        let ghost row0 = row@;
        let mut t: usize = 0;
        while t < tiles
            invariant_except_break
                legacy_row(inp, offset as int, row@, t as nat, tiles as nat) == legacy_row(
                    inp,
                    off0,
                    row0,
                    0,
                    tiles as nat,
                ),
            invariant
                t <= tiles,
                y < height,
                inp == input@,
                out0 == old(output)@,
                output@.len() == out0.len(),
                row@.len() == padded_width,
                row0.len() == padded_width,
                padded_width == 32 * tiles,
                full == legacy_frame(inp, width as nat, height as nat),
                legacy_rows(inp, width as nat, off0, row0, y as nat, height as nat) is None
                    ==> full is None,
            ensures
                row@.len() == padded_width,
                legacy_row(inp, off0, row0, 0, tiles as nat) == Some((offset as int, row@)),
            decreases tiles - t,
        {
            match decode_tile(input, offset, &mut p, &mut row, ENCODING_BLOCK * t) {
                None => {
                    return None;
                },
                Some((o, stop)) => {
                    offset = o;
                    if stop {
                        break ;
                    }
                },
            }
            t = t + 1;
        }
        proof {
            assert((y + 1) * width <= width * height) by (nonlinear_arith)
                requires
                    y + 1 <= height,
            ;
            assert((y + 1) * width == y * width + width) by (nonlinear_arith);
        }
        let ghost before = output@;
        let mut j: usize = 0;
        while j < width
            invariant
                j <= width,
                width <= padded_width,
                row@.len() == padded_width,
                out_idx + width <= total,
                total <= output@.len(),
                output@.len() == before.len(),
                forall|k: int|
                    0 <= k < output@.len() ==> #[trigger] output@[k] == if out_idx <= k < out_idx
                        + j {
                        row@[k - out_idx]
                    } else {
                        before[k]
                    },
            decreases width - j,
        {
            output[out_idx + j] = row[j];
            j = j + 1;
        }
        proof {
            let rows_here = legacy_rows(inp, width as nat, offset as int, row@, (y + 1) as nat, height as nat);
            assert(output@.subrange(0, out_idx + width) =~= before.subrange(0, out_idx as int)
                + row@.subrange(0, width as int));
            if let Some(rest) = rows_here {
                assert(output@.subrange(0, out_idx + width) + rest =~= before.subrange(
                    0,
                    out_idx as int,
                ) + (row@.subrange(0, width as int) + rest));
            }
        }
        out_idx = out_idx + width;
        y = y + 1;
    }
    proof {
        assert(height * width == width * height) by (nonlinear_arith);
        assert(output@ =~= output@.subrange(0, total as int) + out0.subrange(
            total as int,
            out0.len() as int,
        ));
        assert(output@.subrange(0, out_idx as int) + Seq::<u16>::empty() =~= output@.subrange(
            0,
            out_idx as int,
        ));
    }
    Some(Ok(out_idx))
}

/// Decode a raw frame using compression type 6 (legacy).
///
/// Decodes the compressed `input` into `output` (row-major `u16` Bayer data)
/// and returns the number of `u16` samples written: `height` rows of
/// `width` samples, as `legacy_frame` describes them.
pub fn decode_legacy(output: &mut [u16], width: usize, height: usize, input: &[u8]) -> (r: Result<usize>)
    requires
        legacy_frame(input@, width as nat, height as nat) is Some,
        width * height <= old(output)@.len(),
    ensures
        r matches Ok(n) && n == width * height,
        legacy_frame(input@, width as nat, height as nat) matches Some(samples) && final(output)@
            == samples + old(output)@.subrange(width * height, old(output)@.len() as int),
{
    match decode_legacy_checked(output, width, height, input) {
        Some(r) => r,
        None => {
            proof {
                assert(false);
            }
            Ok(0)
        },
    }
}

} // verus!
