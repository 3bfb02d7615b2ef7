use crate::error::{McRawError, Result, read_le_bytes, u32_from_le_bytes, le_u32};
use crate::simd_portable::{decode_header, header_bits, header_reference};
use crate::simd_portable::{
    load_u8_to_u16x8, store_u16x8, u16x8_and, u16x8_from_array, u16x8_lanes, u16x8_or, u16x8_shl, u16x8_shr,
    u16x8_splat,
};
use vstd::prelude::*;
use wide::u16x8;

verus! {

const ENCODING_BLOCK: usize = 64;
const HEADER_LENGTH: usize = 2;
const METADATA_OFFSET: usize = 16;
const ENCODING_BLOCK_LENGTH: [usize; 17] = [
    0, 8, 16, 24, 32, 40, 48, 64, 64, 80, 80, 128, 128, 128, 128, 128, 128,
];

/// Bytes that a block of the given bit width takes (widths up to 16).
pub open spec fn raw_block_len(bits: u16) -> nat {
    if bits <= 6 {
        8 * bits as nat
    } else if bits <= 8 {
        64
    } else if bits <= 10 {
        80
    } else {
        128
    }
}

/// Byte `i` of the `m`-th group of eight bytes: the input of lane `i`.
pub open spec fn lane(b: Seq<u8>, m: int, i: int) -> u16 {
    b[8 * m + i] as u16
}

/// Sample `8 * j + i` of a 3-bit block, from the lane-`i` bytes of its
/// three groups: two 3-bit samples in the low bits of each of the first
/// two groups, the low two bits of samples 2 and 5 in their top bits, and
/// their third bits in the top bits of the last group.
pub open spec fn raw3(p0: u16, p1: u16, p2: u16, j: int) -> u16 {
    if j == 0 {
        p0 & 7
    } else if j == 1 {
        (p0 >> 3u32) & 7
    } else if j == 2 {
        ((p0 >> 6u32) & 3) | (((p2 >> 6u32) & 1) << 2u32)
    } else if j == 3 {
        p1 & 7
    } else if j == 4 {
        (p1 >> 3u32) & 7
    } else if j == 5 {
        ((p1 >> 6u32) & 3) | (((p2 >> 7u32) & 1) << 2u32)
    } else if j == 6 {
        p2 & 7
    } else {
        (p2 >> 3u32) & 7
    }
}

/// Sample `8 * j + i` of a 5-bit block: one sample in the low five bits of
/// each of the five groups, the other three assembled from their top bits.
pub open spec fn raw5(p0: u16, p1: u16, p2: u16, p3: u16, p4: u16, j: int) -> u16 {
    if j == 0 {
        p0 & 31
    } else if j == 1 {
        p1 & 31
    } else if j == 2 {
        p2 & 31
    } else if j == 3 {
        p3 & 31
    } else if j == 4 {
        p4 & 31
    } else if j == 5 {
        ((p0 >> 5u32) & 7) | (((p3 >> 5u32) & 3) << 3u32)
    } else if j == 6 {
        ((p1 >> 5u32) & 7) | (((p4 >> 5u32) & 3) << 3u32)
    } else {
        ((p2 >> 5u32) & 7) | (((p3 >> 7u32) & 1) << 3u32) | (((p4 >> 7u32) & 1) << 4u32)
    }
}

/// Sample `8 * j + i` of a 6-bit block: one sample in the low six bits of
/// each of the six groups, the other two from their top two bits.
pub open spec fn raw6(p0: u16, p1: u16, p2: u16, p3: u16, p4: u16, p5: u16, j: int) -> u16 {
    if j == 0 {
        p0 & 63
    } else if j == 1 {
        p1 & 63
    } else if j == 2 {
        p2 & 63
    } else if j == 3 {
        p3 & 63
    } else if j == 4 {
        p4 & 63
    } else if j == 5 {
        p5 & 63
    } else if j == 6 {
        ((p0 >> 6u32) & 3) | (((p1 >> 6u32) & 3) << 2u32) | (((p2 >> 6u32) & 3) << 4u32)
    } else {
        ((p3 >> 6u32) & 3) | (((p4 >> 6u32) & 3) << 2u32) | (((p5 >> 6u32) & 3) << 4u32)
    }
}

/// Sample `8 * j + i` of a 10-bit block: the low byte from one of eight
/// groups, the top two bits from the fifth or the tenth group.
pub open spec fn raw10(b: Seq<u8>, j: int, i: int) -> u16 {
    if j < 4 {
        lane(b, j, i) | (((lane(b, 4, i) >> (2 * j) as u32) & 3) << 8u32)
    } else {
        lane(b, j + 1, i) | (((lane(b, 9, i) >> (2 * (j - 4)) as u32) & 3) << 8u32)
    }
}

/// Sample `8 * j + i` (row `j`, lane `i`) of a block of the given bit width
/// whose bytes start at `b[0]`.
pub open spec fn raw_cell(bits: u16, b: Seq<u8>, j: int, i: int) -> u16 {
    if bits == 0 {
        0
    } else if bits == 1 {
        (lane(b, 0, i) >> j as u32) & 1
    } else if bits == 2 {
        (lane(b, j / 4, i) >> (2 * (j % 4)) as u32) & 3
    } else if bits == 3 {
        raw3(lane(b, 0, i), lane(b, 1, i), lane(b, 2, i), j)
    } else if bits == 4 {
        (lane(b, j / 2, i) >> (4 * (j % 2)) as u32) & 15
    } else if bits == 5 {
        raw5(lane(b, 0, i), lane(b, 1, i), lane(b, 2, i), lane(b, 3, i), lane(b, 4, i), j)
    } else if bits == 6 {
        raw6(
            lane(b, 0, i),
            lane(b, 1, i),
            lane(b, 2, i),
            lane(b, 3, i),
            lane(b, 4, i),
            lane(b, 5, i),
            j,
        )
    } else if bits <= 8 {
        lane(b, j, i)
    } else if bits <= 10 {
        raw10(b, j, i)
    } else {
        (b[16 * j + 2 * i] + 256 * b[16 * j + 2 * i + 1]) as u16
    }
}

/// The 64 samples of a block of the given bit width (at most 16) whose
/// bytes start at `b[0]`, sample `k` being row `k / 8` of lane `k % 8`.
pub open spec fn raw_block(bits: u16, b: Seq<u8>) -> Seq<u16> {
    Seq::new(64, |k: int| raw_cell(bits, b, k / 8, k % 8))
}

/// A 1-bit block: sample `8 * j + i` is bit `j` of byte `i`.
pub proof fn lemma_block1_bytes(b: Seq<u8>, i: int, j: int)
    requires
        0 <= i < 8,
        0 <= j < 8,
    ensures
        raw_block(1, b)[8 * j + i] == ((b[i] as u16) >> j as u32) & 1,
{
    lemma_split8(j, i);
}

/// A 2-bit block: sample `8 * (4 * h + k) + i` is bits `2k, 2k + 1` of
/// byte `8 * h + i`.
pub proof fn lemma_block2_bytes(b: Seq<u8>, i: int, h: int, k: int)
    requires
        0 <= i < 8,
        0 <= h < 2,
        0 <= k < 4,
    ensures
        raw_block(2, b)[8 * (4 * h + k) + i] == ((b[8 * h + i] as u16) >> (2 * k) as u32) & 3,
{
    lemma_split8(4 * h + k, i);
}

/// A 3-bit block with groups `x = b[i]`, `y = b[8 + i]`, `z = b[16 + i]`
/// for lane `i`: rows 0, 1 are the low two 3-bit fields of `x`, rows 3, 4
/// those of `y`, rows 6, 7 those of `z`; rows 2 and 5 take the top two
/// bits of `x` and `y` and, as their third bit, bit 6 and bit 7 of `z`.
pub proof fn lemma_block3_bytes(b: Seq<u8>, i: int)
    requires
        0 <= i < 8,
    ensures
        ({
            let x = b[i] as u16;
            let y = b[8 + i] as u16;
            let z = b[16 + i] as u16;
            let s = raw_block(3, b);
            &&& s[i] == x & 7
            &&& s[8 + i] == (x >> 3u32) & 7
            &&& s[16 + i] == ((x >> 6u32) & 3) | (((z >> 6u32) & 1) << 2u32)
            &&& s[24 + i] == y & 7
            &&& s[32 + i] == (y >> 3u32) & 7
            &&& s[40 + i] == ((y >> 6u32) & 3) | (((z >> 7u32) & 1) << 2u32)
            &&& s[48 + i] == z & 7
            &&& s[56 + i] == (z >> 3u32) & 7
        }),
{
    lemma_split8(0, i);
    lemma_split8(1, i);
    lemma_split8(2, i);
    lemma_split8(3, i);
    lemma_split8(4, i);
    lemma_split8(5, i);
    lemma_split8(6, i);
    lemma_split8(7, i);
}

/// A 4-bit block: sample `8 * (2 * h + k) + i` is nibble `k` (low first) of
/// byte `8 * h + i`.
pub proof fn lemma_block4_bytes(b: Seq<u8>, i: int, h: int, k: int)
    requires
        0 <= i < 8,
        0 <= h < 4,
        0 <= k < 2,
    ensures
        raw_block(4, b)[8 * (2 * h + k) + i] == ((b[8 * h + i] as u16) >> (4 * k) as u32) & 15,
{
    lemma_split8(2 * h + k, i);
}

/// A 5-bit block with groups `x_m = b[8 * m + i]` for lane `i`: rows 0..5
/// are the low five bits of `x_0 .. x_4`; rows 5 and 6 take the top three
/// bits of `x_0` and `x_1` below bits 5..7 of `x_3` and `x_4`; row 7 takes
/// the top three bits of `x_2`, then bit 7 of `x_3` and of `x_4`.
pub proof fn lemma_block5_bytes(b: Seq<u8>, i: int)
    requires
        0 <= i < 8,
    ensures
        ({
            let s = raw_block(5, b);
            &&& forall|m: int| 0 <= m < 5 ==> s[8 * m + i] == (#[trigger] b[8 * m + i] as u16) & 31
            &&& s[40 + i] == ((b[i] as u16 >> 5u32) & 7) | (((b[24 + i] as u16 >> 5u32) & 3) << 3u32)
            &&& s[48 + i] == ((b[8 + i] as u16 >> 5u32) & 7) | (((b[32 + i] as u16 >> 5u32) & 3)
                << 3u32)
            &&& s[56 + i] == ((b[16 + i] as u16 >> 5u32) & 7) | (((b[24 + i] as u16 >> 7u32) & 1)
                << 3u32) | (((b[32 + i] as u16 >> 7u32) & 1) << 4u32)
        }),
{
    lemma_split8(0, i);
    lemma_split8(1, i);
    lemma_split8(2, i);
    lemma_split8(3, i);
    lemma_split8(4, i);
    lemma_split8(5, i);
    lemma_split8(6, i);
    lemma_split8(7, i);
}

/// A 6-bit block with groups `x_m = b[8 * m + i]` for lane `i`: rows 0..6
/// are the low six bits of `x_0 .. x_5`; row 6 gathers the top two bits of
/// `x_0, x_1, x_2` (lowest first), row 7 those of `x_3, x_4, x_5`.
pub proof fn lemma_block6_bytes(b: Seq<u8>, i: int)
    requires
        0 <= i < 8,
    ensures
        ({
            let s = raw_block(6, b);
            &&& forall|m: int| 0 <= m < 6 ==> s[8 * m + i] == (#[trigger] b[8 * m + i] as u16) & 63
            &&& s[48 + i] == ((b[i] as u16 >> 6u32) & 3) | (((b[8 + i] as u16 >> 6u32) & 3) << 2u32) | ((
            (b[16 + i] as u16 >> 6u32) & 3) << 4u32)
            &&& s[56 + i] == ((b[24 + i] as u16 >> 6u32) & 3) | (((b[32 + i] as u16 >> 6u32) & 3)
                << 2u32) | (((b[40 + i] as u16 >> 6u32) & 3) << 4u32)
        }),
{
    lemma_split8(0, i);
    lemma_split8(1, i);
    lemma_split8(2, i);
    lemma_split8(3, i);
    lemma_split8(4, i);
    lemma_split8(5, i);
    lemma_split8(6, i);
    lemma_split8(7, i);
}

/// 7- and 8-bit blocks hold one byte per sample, in order.
pub proof fn lemma_block8_bytes(bits: u16, b: Seq<u8>, k: int)
    requires
        7 <= bits <= 8,
        0 <= k < 64,
    ensures
        raw_block(bits, b)[k] == b[k] as u16,
{
    lemma_split8(k / 8, k % 8);
}

/// 9- and 10-bit blocks: in each half `h`, row `4 * h + j` takes its low
/// byte from group `5 * h + j` and its top two bits from bits `2j, 2j + 1`
/// of group `5 * h + 4`.
pub proof fn lemma_block10_bytes(bits: u16, b: Seq<u8>, i: int, h: int, j: int)
    requires
        9 <= bits <= 10,
        0 <= i < 8,
        0 <= h < 2,
        0 <= j < 4,
    ensures
        raw_block(bits, b)[8 * (4 * h + j) + i] == (b[8 * (5 * h + j) + i] as u16) | (((b[8 * (5 * h
            + 4) + i] as u16 >> (2 * j) as u32) & 3) << 8u32),
{
    lemma_split8(4 * h + j, i);
}

/// Blocks of 11 to 16 bits hold each sample as two little-endian bytes, in
/// order.
pub proof fn lemma_block16_bytes(bits: u16, b: Seq<u8>, k: int)
    requires
        11 <= bits <= 16,
        0 <= k < 64,
    ensures
        raw_block(bits, b)[k] == (b[2 * k] + 256 * b[2 * k + 1]) as u16,
{
    lemma_split8(k / 8, k % 8);
}

/// `out[base .. base + 64]` holds the first `n` of `vals` and, outside that
/// range, `out` is `prev`.
pub open spec fn rows_filled(out: Seq<u16>, prev: Seq<u16>, base: int, vals: Seq<u16>, n: int) -> bool {
    &&& out.len() == prev.len()
    &&& 0 <= base
    &&& base + 64 <= out.len()
    &&& forall|k: int| 0 <= k < n ==> #[trigger] out[base + k] == vals[k]
    &&& forall|t: int| 0 <= t < out.len() && !(base <= t < base + 64) ==> #[trigger] out[t] == prev[t]
}

proof fn lemma_split8(j: int, i: int)
    requires
        0 <= j,
        0 <= i < 8,
    ensures
        (8 * j + i) / 8 == j,
        (8 * j + i) % 8 == i,
{
    vstd::arithmetic::div_mod::lemma_fundamental_div_mod_converse(8 * j + i, 8, j, i);
}

/// Row `j` of a block, as the lanes of one vector.
pub open spec fn row_of(vals: Seq<u16>, j: int) -> Seq<u16> {
    vals.subrange(8 * j, 8 * j + 8)
}

/// Stores row `j` of a block whose samples are `vals` into
/// `out[base + 8 * j ..]`.
fn put_row(
    out: &mut [u16],
    base: usize,
    j: usize,
    v: u16x8,
    Ghost(vals): Ghost<Seq<u16>>,
    Ghost(prev): Ghost<Seq<u16>>,
) -> (r: Result<()>)
    requires
        j < 8,
        vals.len() == 64,
        base + 64 <= old(out).len(),
        rows_filled(old(out)@, prev, base as int, vals, 8 * j),
        u16x8_lanes(v) == row_of(vals, j as int),
    ensures
        r is Ok,
        rows_filled(final(out)@, prev, base as int, vals, 8 * j + 8),
{
    let ghost before = out@;
    let r = store_u16x8(out, base + 8 * j, v);
    proof {
        assert forall|k: int| 0 <= k < 8 * j + 8 implies #[trigger] out@[base + k] == vals[k] by {
            if k >= 8 * j {
                assert(out@[base + k] == u16x8_lanes(v)[k - 8 * j]);
            }
        }
    }
    r
}

proof fn lemma_ext_shift(x: u16, m: u16, s: u32)
    by (bit_vector)
    requires
        s < 16,
    ensures
        (x & (m << s)) >> s == (x >> s) & m,
        x & m == (x >> 0u32) & m,
{
}

/// `v` holds row `j` of `vals` when lane `i` of `v` is sample `8 * j + i`.
proof fn lemma_row(v: u16x8, vals: Seq<u16>, j: int)
    requires
        0 <= j < 8,
        vals.len() == 64,
        u16x8_lanes(v).len() == 8,
        forall|i: int| 0 <= i < 8 ==> #[trigger] u16x8_lanes(v)[i] == vals[8 * j + i],
    ensures
        u16x8_lanes(v) == row_of(vals, j),
{
    assert(u16x8_lanes(v) =~= row_of(vals, j));
}

fn decode1(out: &mut [u16], pos: usize, inp: &[u8]) -> (r: Result<usize>)
    requires
        pos + 64 <= old(out).len(),
    ensures
        inp@.len() < raw_block_len(1) ==> r == Err::<usize, McRawError>(McRawError::TruncatedData)
            && final(out)@ == old(out)@,
        inp@.len() >= raw_block_len(1) ==> r == Ok::<usize, McRawError>(raw_block_len(1) as usize)
            && rows_filled(final(out)@, old(out)@, pos as int, raw_block(1, inp@), 64),
{
    let ghost vals = raw_block(1, inp@);
    let ghost prev = out@;
    let n = u16x8_splat(0x01);
    let p = load_u8_to_u16x8(inp)?;
    let v0 = u16x8_and(p, n);
    proof {
        assert forall|i: int| 0 <= i < 8 implies #[trigger] u16x8_lanes(v0)[i] == vals[8 * 0 + i] by {
            lemma_split8(0, i);
            lemma_ext_shift(inp@[i] as u16, 1, 0);
        }
        lemma_row(v0, vals, 0);
    }
    put_row(out, pos, 0, v0, Ghost(vals), Ghost(prev))?;
    let v1 = u16x8_shr(u16x8_and(p, u16x8_shl(n, 1u32)), 1u32);
    proof {
        assert forall|i: int| 0 <= i < 8 implies #[trigger] u16x8_lanes(v1)[i] == vals[8 * 1 + i] by {
            lemma_split8(1, i);
            lemma_ext_shift(inp@[i] as u16, 1, 1);
        }
        lemma_row(v1, vals, 1);
    }
    put_row(out, pos, 1, v1, Ghost(vals), Ghost(prev))?;
    let v2 = u16x8_shr(u16x8_and(p, u16x8_shl(n, 2u32)), 2u32);
    proof {
        assert forall|i: int| 0 <= i < 8 implies #[trigger] u16x8_lanes(v2)[i] == vals[8 * 2 + i] by {
            lemma_split8(2, i);
            lemma_ext_shift(inp@[i] as u16, 1, 2);
        }
        lemma_row(v2, vals, 2);
    }
    put_row(out, pos, 2, v2, Ghost(vals), Ghost(prev))?;
    let v3 = u16x8_shr(u16x8_and(p, u16x8_shl(n, 3u32)), 3u32);
    proof {
        assert forall|i: int| 0 <= i < 8 implies #[trigger] u16x8_lanes(v3)[i] == vals[8 * 3 + i] by {
            lemma_split8(3, i);
            lemma_ext_shift(inp@[i] as u16, 1, 3);
        }
        lemma_row(v3, vals, 3);
    }
    put_row(out, pos, 3, v3, Ghost(vals), Ghost(prev))?;
    let v4 = u16x8_shr(u16x8_and(p, u16x8_shl(n, 4u32)), 4u32);
    proof {
        assert forall|i: int| 0 <= i < 8 implies #[trigger] u16x8_lanes(v4)[i] == vals[8 * 4 + i] by {
            lemma_split8(4, i);
            lemma_ext_shift(inp@[i] as u16, 1, 4);
        }
        lemma_row(v4, vals, 4);
    }
    put_row(out, pos, 4, v4, Ghost(vals), Ghost(prev))?;
    let v5 = u16x8_shr(u16x8_and(p, u16x8_shl(n, 5u32)), 5u32);
    proof {
        assert forall|i: int| 0 <= i < 8 implies #[trigger] u16x8_lanes(v5)[i] == vals[8 * 5 + i] by {
            lemma_split8(5, i);
            lemma_ext_shift(inp@[i] as u16, 1, 5);
        }
        lemma_row(v5, vals, 5);
    }
    put_row(out, pos, 5, v5, Ghost(vals), Ghost(prev))?;
    let v6 = u16x8_shr(u16x8_and(p, u16x8_shl(n, 6u32)), 6u32);
    proof {
        assert forall|i: int| 0 <= i < 8 implies #[trigger] u16x8_lanes(v6)[i] == vals[8 * 6 + i] by {
            lemma_split8(6, i);
            lemma_ext_shift(inp@[i] as u16, 1, 6);
        }
        lemma_row(v6, vals, 6);
    }
    put_row(out, pos, 6, v6, Ghost(vals), Ghost(prev))?;
    let v7 = u16x8_shr(u16x8_and(p, u16x8_shl(n, 7u32)), 7u32);
    proof {
        assert forall|i: int| 0 <= i < 8 implies #[trigger] u16x8_lanes(v7)[i] == vals[8 * 7 + i] by {
            lemma_split8(7, i);
            lemma_ext_shift(inp@[i] as u16, 1, 7);
        }
        lemma_row(v7, vals, 7);
    }
    put_row(out, pos, 7, v7, Ghost(vals), Ghost(prev))?;
    Ok(ENCODING_BLOCK_LENGTH[1])
}

fn decode2_one(
    out: &mut [u16],
    base: usize,
    h: usize,
    inp: &[u8],
    Ghost(blk): Ghost<Seq<u8>>,
    Ghost(prev): Ghost<Seq<u16>>,
) -> (r: Result<usize>)
    requires
        h < 2,
        base + 64 <= old(out).len(),
        blk.len() >= 16,
        inp@.len() >= 8,
        forall|i: int| 0 <= i < 8 ==> inp@[i] == blk[8 * h + i],
        rows_filled(old(out)@, prev, base as int, raw_block(2, blk), 32 * h),
    ensures
        r == Ok::<usize, McRawError>(8),
        rows_filled(final(out)@, prev, base as int, raw_block(2, blk), 32 * h + 32),
{
    let ghost vals = raw_block(2, blk);
    let n = u16x8_splat(0x03);
    let p = load_u8_to_u16x8(inp)?;
    let v0 = u16x8_and(p, n);
    proof {
        assert forall|i: int| 0 <= i < 8 implies #[trigger] u16x8_lanes(v0)[i] == vals[8 * (4 * h + 0) + i] by {
            lemma_split8((4 * h + 0), i);
            vstd::arithmetic::div_mod::lemma_fundamental_div_mod_converse(4 * h + 0, 4, h as int, 0);
            lemma_ext_shift(inp@[i] as u16, 3, 0);
        }
        lemma_row(v0, vals, (4 * h + 0));
    }
    put_row(out, base, 4 * h + 0, v0, Ghost(vals), Ghost(prev))?;
    let v1 = u16x8_shr(u16x8_and(p, u16x8_shl(n, 2u32)), 2u32);
    proof {
        assert forall|i: int| 0 <= i < 8 implies #[trigger] u16x8_lanes(v1)[i] == vals[8 * (4 * h + 1) + i] by {
            lemma_split8((4 * h + 1), i);
            vstd::arithmetic::div_mod::lemma_fundamental_div_mod_converse(4 * h + 1, 4, h as int, 1);
            lemma_ext_shift(inp@[i] as u16, 3, 2);
        }
        lemma_row(v1, vals, (4 * h + 1));
    }
    put_row(out, base, 4 * h + 1, v1, Ghost(vals), Ghost(prev))?;
    let v2 = u16x8_shr(u16x8_and(p, u16x8_shl(n, 4u32)), 4u32);
    proof {
        assert forall|i: int| 0 <= i < 8 implies #[trigger] u16x8_lanes(v2)[i] == vals[8 * (4 * h + 2) + i] by {
            lemma_split8((4 * h + 2), i);
            vstd::arithmetic::div_mod::lemma_fundamental_div_mod_converse(4 * h + 2, 4, h as int, 2);
            lemma_ext_shift(inp@[i] as u16, 3, 4);
        }
        lemma_row(v2, vals, (4 * h + 2));
    }
    put_row(out, base, 4 * h + 2, v2, Ghost(vals), Ghost(prev))?;
    let v3 = u16x8_shr(u16x8_and(p, u16x8_shl(n, 6u32)), 6u32);
    proof {
        assert forall|i: int| 0 <= i < 8 implies #[trigger] u16x8_lanes(v3)[i] == vals[8 * (4 * h + 3) + i] by {
            lemma_split8((4 * h + 3), i);
            vstd::arithmetic::div_mod::lemma_fundamental_div_mod_converse(4 * h + 3, 4, h as int, 3);
            lemma_ext_shift(inp@[i] as u16, 3, 6);
        }
        lemma_row(v3, vals, (4 * h + 3));
    }
    put_row(out, base, 4 * h + 3, v3, Ghost(vals), Ghost(prev))?;
    Ok(8)
}

fn decode2(out: &mut [u16], pos: usize, inp: &[u8]) -> (r: Result<usize>)
    requires
        pos + 64 <= old(out).len(),
        inp@.len() >= raw_block_len(2),
    ensures
        r == Ok::<usize, McRawError>(raw_block_len(2) as usize),
        rows_filled(final(out)@, old(out)@, pos as int, raw_block(2, inp@), 64),
{
    let mut o = decode2_one(out, pos, 0, inp, Ghost(inp@), Ghost(old(out)@))?;
    o += decode2_one(out, pos, 1, &inp[o..inp.len()], Ghost(inp@), Ghost(old(out)@))?;
    Ok(o)
}

fn decode4_one(
    out: &mut [u16],
    base: usize,
    q: usize,
    inp: &[u8],
    Ghost(blk): Ghost<Seq<u8>>,
    Ghost(prev): Ghost<Seq<u16>>,
) -> (r: Result<usize>)
    requires
        q < 4,
        base + 64 <= old(out).len(),
        blk.len() >= 32,
        inp@.len() >= 8,
        forall|i: int| 0 <= i < 8 ==> inp@[i] == blk[8 * q + i],
        rows_filled(old(out)@, prev, base as int, raw_block(4, blk), 16 * q),
    ensures
        r == Ok::<usize, McRawError>(8),
        rows_filled(final(out)@, prev, base as int, raw_block(4, blk), 16 * q + 16),
{
    let ghost vals = raw_block(4, blk);
    let n = u16x8_splat(0x0F);
    let p = load_u8_to_u16x8(inp)?;
    let v0 = u16x8_and(p, n);
    proof {
        assert forall|i: int| 0 <= i < 8 implies #[trigger] u16x8_lanes(v0)[i] == vals[8 * (2 * q + 0) + i] by {
            lemma_split8((2 * q + 0), i);
            vstd::arithmetic::div_mod::lemma_fundamental_div_mod_converse(2 * q + 0, 2, q as int, 0);
            lemma_ext_shift(inp@[i] as u16, 15, 0);
        }
        lemma_row(v0, vals, (2 * q + 0));
    }
    put_row(out, base, 2 * q + 0, v0, Ghost(vals), Ghost(prev))?;
    let v1 = u16x8_shr(u16x8_and(p, u16x8_shl(n, 4u32)), 4u32);
    proof {
        assert forall|i: int| 0 <= i < 8 implies #[trigger] u16x8_lanes(v1)[i] == vals[8 * (2 * q + 1) + i] by {
            lemma_split8((2 * q + 1), i);
            vstd::arithmetic::div_mod::lemma_fundamental_div_mod_converse(2 * q + 1, 2, q as int, 1);
            lemma_ext_shift(inp@[i] as u16, 15, 4);
        }
        lemma_row(v1, vals, (2 * q + 1));
    }
    put_row(out, base, 2 * q + 1, v1, Ghost(vals), Ghost(prev))?;
    Ok(8)
}

fn decode4(out: &mut [u16], pos: usize, inp: &[u8]) -> (r: Result<usize>)
    requires
        pos + 64 <= old(out).len(),
        inp@.len() >= raw_block_len(4),
    ensures
        r == Ok::<usize, McRawError>(raw_block_len(4) as usize),
        rows_filled(final(out)@, old(out)@, pos as int, raw_block(4, inp@), 64),
{
    let mut o = decode4_one(out, pos, 0, inp, Ghost(inp@), Ghost(old(out)@))?;
    o += decode4_one(out, pos, 1, &inp[o..inp.len()], Ghost(inp@), Ghost(old(out)@))?;
    o += decode4_one(out, pos, 2, &inp[o..inp.len()], Ghost(inp@), Ghost(old(out)@))?;
    o += decode4_one(out, pos, 3, &inp[o..inp.len()], Ghost(inp@), Ghost(old(out)@))?;
    Ok(o)
}

fn decode3(out: &mut [u16], pos: usize, inp: &[u8]) -> (r: Result<usize>)
    requires
        pos + 64 <= old(out).len(),
    ensures
        inp@.len() < raw_block_len(3) ==> r == Err::<usize, McRawError>(McRawError::TruncatedData)
            && final(out)@ == old(out)@,
        inp@.len() >= raw_block_len(3) ==> r == Ok::<usize, McRawError>(raw_block_len(3) as usize)
            && rows_filled(final(out)@, old(out)@, pos as int, raw_block(3, inp@), 64),
{
    let ghost vals = raw_block(3, inp@);
    let ghost prev = out@;
    let n = u16x8_splat(0x07);
    let t = u16x8_splat(0x03);
    let r = u16x8_splat(0x01);

    let p0 = match load_u8_to_u16x8(inp) {
        Ok(v) => v,
        Err(e) => {
            return Err(e);
        },
    };
    let p1 = match load_u8_to_u16x8(&inp[8..inp.len()]) {
        Ok(v) => v,
        Err(e) => {
            return Err(e);
        },
    };
    let p2 = match load_u8_to_u16x8(&inp[16..inp.len()]) {
        Ok(v) => v,
        Err(e) => {
            return Err(e);
        },
    };

    let r0 = u16x8_and(p0, n);
    let r1 = u16x8_shr(u16x8_and(p0, u16x8_shl(n, 3u32)), 3u32);
    let _r2 = u16x8_shr(u16x8_and(p0, u16x8_shl(t, 6u32)), 6u32);
    let r3 = u16x8_and(p1, n);
    let r4 = u16x8_shr(u16x8_and(p1, u16x8_shl(n, 3u32)), 3u32);
    let _r5 = u16x8_shr(u16x8_and(p1, u16x8_shl(t, 6u32)), 6u32);
    let r6 = u16x8_and(p2, n);
    let r7 = u16x8_shr(u16x8_and(p2, u16x8_shl(n, 3u32)), 3u32);

    let r2 = u16x8_or(_r2, u16x8_shl(u16x8_and(u16x8_shr(p2, 6u32), r), 2u32));
    let r5 = u16x8_or(_r5, u16x8_shl(u16x8_and(u16x8_shr(p2, 7u32), r), 2u32));

    proof {
        assert forall|i: int| 0 <= i < 8 implies #[trigger] u16x8_lanes(r0)[i] == vals[8 * 0 + i] by {
            lemma_split8(0, i);
        }
        lemma_row(r0, vals, 0);
    }
    put_row(out, pos, 0, r0, Ghost(vals), Ghost(prev))?;
    proof {
        assert forall|i: int| 0 <= i < 8 implies #[trigger] u16x8_lanes(r1)[i] == vals[8 * 1 + i] by {
            lemma_split8(1, i);
            lemma_ext_shift(inp@[0 + i] as u16, 7, 3);
        }
        lemma_row(r1, vals, 1);
    }
    put_row(out, pos, 1, r1, Ghost(vals), Ghost(prev))?;
    proof {
        assert forall|i: int| 0 <= i < 8 implies #[trigger] u16x8_lanes(r2)[i] == vals[8 * 2 + i] by {
            lemma_split8(2, i);
            lemma_ext_shift(inp@[0 + i] as u16, 3, 6);
        }
        lemma_row(r2, vals, 2);
    }
    put_row(out, pos, 2, r2, Ghost(vals), Ghost(prev))?;
    proof {
        assert forall|i: int| 0 <= i < 8 implies #[trigger] u16x8_lanes(r3)[i] == vals[8 * 3 + i] by {
            lemma_split8(3, i);
        }
        lemma_row(r3, vals, 3);
    }
    put_row(out, pos, 3, r3, Ghost(vals), Ghost(prev))?;
    proof {
        assert forall|i: int| 0 <= i < 8 implies #[trigger] u16x8_lanes(r4)[i] == vals[8 * 4 + i] by {
            lemma_split8(4, i);
            lemma_ext_shift(inp@[8 + i] as u16, 7, 3);
        }
        lemma_row(r4, vals, 4);
    }
    put_row(out, pos, 4, r4, Ghost(vals), Ghost(prev))?;
    proof {
        assert forall|i: int| 0 <= i < 8 implies #[trigger] u16x8_lanes(r5)[i] == vals[8 * 5 + i] by {
            lemma_split8(5, i);
            lemma_ext_shift(inp@[8 + i] as u16, 3, 6);
        }
        lemma_row(r5, vals, 5);
    }
    put_row(out, pos, 5, r5, Ghost(vals), Ghost(prev))?;
    proof {
        assert forall|i: int| 0 <= i < 8 implies #[trigger] u16x8_lanes(r6)[i] == vals[8 * 6 + i] by {
            lemma_split8(6, i);
        }
        lemma_row(r6, vals, 6);
    }
    put_row(out, pos, 6, r6, Ghost(vals), Ghost(prev))?;
    proof {
        assert forall|i: int| 0 <= i < 8 implies #[trigger] u16x8_lanes(r7)[i] == vals[8 * 7 + i] by {
            lemma_split8(7, i);
            lemma_ext_shift(inp@[16 + i] as u16, 7, 3);
        }
        lemma_row(r7, vals, 7);
    }
    put_row(out, pos, 7, r7, Ghost(vals), Ghost(prev))?;

    Ok(ENCODING_BLOCK_LENGTH[3])
}

fn decode5(out: &mut [u16], pos: usize, inp: &[u8]) -> (r: Result<usize>)
    requires
        pos + 64 <= old(out).len(),
    ensures
        inp@.len() < raw_block_len(5) ==> r == Err::<usize, McRawError>(McRawError::TruncatedData)
            && final(out)@ == old(out)@,
        inp@.len() >= raw_block_len(5) ==> r == Ok::<usize, McRawError>(raw_block_len(5) as usize)
            && rows_filled(final(out)@, old(out)@, pos as int, raw_block(5, inp@), 64),
{
    let ghost vals = raw_block(5, inp@);
    let ghost prev = out@;
    let n = u16x8_splat(0x1F);
    let l = u16x8_splat(0x07);
    let u = u16x8_splat(0x03);
    let f = u16x8_splat(0x01);

    let p0 = match load_u8_to_u16x8(inp) {
        Ok(v) => v,
        Err(e) => {
            return Err(e);
        },
    };
    let p1 = match load_u8_to_u16x8(&inp[8..inp.len()]) {
        Ok(v) => v,
        Err(e) => {
            return Err(e);
        },
    };
    let p2 = match load_u8_to_u16x8(&inp[16..inp.len()]) {
        Ok(v) => v,
        Err(e) => {
            return Err(e);
        },
    };
    let p3 = match load_u8_to_u16x8(&inp[24..inp.len()]) {
        Ok(v) => v,
        Err(e) => {
            return Err(e);
        },
    };
    let p4 = match load_u8_to_u16x8(&inp[32..inp.len()]) {
        Ok(v) => v,
        Err(e) => {
            return Err(e);
        },
    };
    let v0 = u16x8_and(p0, n);
    proof {
        assert forall|i: int| 0 <= i < 8 implies #[trigger] u16x8_lanes(v0)[i] == vals[8 * 0 + i] by {
            lemma_split8(0, i);
        }
        lemma_row(v0, vals, 0);
    }
    put_row(out, pos, 0, v0, Ghost(vals), Ghost(prev))?;
    let v1 = u16x8_and(p1, n);
    proof {
        assert forall|i: int| 0 <= i < 8 implies #[trigger] u16x8_lanes(v1)[i] == vals[8 * 1 + i] by {
            lemma_split8(1, i);
        }
        lemma_row(v1, vals, 1);
    }
    put_row(out, pos, 1, v1, Ghost(vals), Ghost(prev))?;
    let v2 = u16x8_and(p2, n);
    proof {
        assert forall|i: int| 0 <= i < 8 implies #[trigger] u16x8_lanes(v2)[i] == vals[8 * 2 + i] by {
            lemma_split8(2, i);
        }
        lemma_row(v2, vals, 2);
    }
    put_row(out, pos, 2, v2, Ghost(vals), Ghost(prev))?;
    let v3 = u16x8_and(p3, n);
    proof {
        assert forall|i: int| 0 <= i < 8 implies #[trigger] u16x8_lanes(v3)[i] == vals[8 * 3 + i] by {
            lemma_split8(3, i);
        }
        lemma_row(v3, vals, 3);
    }
    put_row(out, pos, 3, v3, Ghost(vals), Ghost(prev))?;
    let v4 = u16x8_and(p4, n);
    proof {
        assert forall|i: int| 0 <= i < 8 implies #[trigger] u16x8_lanes(v4)[i] == vals[8 * 4 + i] by {
            lemma_split8(4, i);
        }
        lemma_row(v4, vals, 4);
    }
    put_row(out, pos, 4, v4, Ghost(vals), Ghost(prev))?;
    let v5 = u16x8_or(
        u16x8_and(u16x8_shr(p0, 5u32), l),
        u16x8_shl(u16x8_and(u16x8_shr(p3, 5u32), u), 3u32),
    );
    proof {
        assert forall|i: int| 0 <= i < 8 implies #[trigger] u16x8_lanes(v5)[i] == vals[8 * 5 + i] by {
            lemma_split8(5, i);
        }
        lemma_row(v5, vals, 5);
    }
    put_row(out, pos, 5, v5, Ghost(vals), Ghost(prev))?;
    let v6 = u16x8_or(
        u16x8_and(u16x8_shr(p1, 5u32), l),
        u16x8_shl(u16x8_and(u16x8_shr(p4, 5u32), u), 3u32),
    );
    proof {
        assert forall|i: int| 0 <= i < 8 implies #[trigger] u16x8_lanes(v6)[i] == vals[8 * 6 + i] by {
            lemma_split8(6, i);
        }
        lemma_row(v6, vals, 6);
    }
    put_row(out, pos, 6, v6, Ghost(vals), Ghost(prev))?;

    let tmp0 = u16x8_and(u16x8_shr(p2, 5u32), l);
    let tmp1 = u16x8_or(tmp0, u16x8_shl(u16x8_and(u16x8_shr(p3, 7u32), f), 3u32));
    let v7 = u16x8_or(tmp1, u16x8_shl(u16x8_and(u16x8_shr(p4, 7u32), f), 4u32));
    proof {
        assert forall|i: int| 0 <= i < 8 implies #[trigger] u16x8_lanes(v7)[i] == vals[8 * 7 + i] by {
            lemma_split8(7, i);
        }
        lemma_row(v7, vals, 7);
    }
    put_row(out, pos, 7, v7, Ghost(vals), Ghost(prev))?;

    Ok(ENCODING_BLOCK_LENGTH[5])
}

fn decode6(out: &mut [u16], pos: usize, inp: &[u8]) -> (r: Result<usize>)
    requires
        pos + 64 <= old(out).len(),
    ensures
        inp@.len() < raw_block_len(6) ==> r == Err::<usize, McRawError>(McRawError::TruncatedData)
            && final(out)@ == old(out)@,
        inp@.len() >= raw_block_len(6) ==> r == Ok::<usize, McRawError>(raw_block_len(6) as usize)
            && rows_filled(final(out)@, old(out)@, pos as int, raw_block(6, inp@), 64),
{
    let ghost vals = raw_block(6, inp@);
    let ghost prev = out@;
    let n = u16x8_splat(0x3F);
    let l = u16x8_splat(0x03);

    let p0 = match load_u8_to_u16x8(inp) {
        Ok(v) => v,
        Err(e) => {
            return Err(e);
        },
    };
    let p1 = match load_u8_to_u16x8(&inp[8..inp.len()]) {
        Ok(v) => v,
        Err(e) => {
            return Err(e);
        },
    };
    let p2 = match load_u8_to_u16x8(&inp[16..inp.len()]) {
        Ok(v) => v,
        Err(e) => {
            return Err(e);
        },
    };
    let p3 = match load_u8_to_u16x8(&inp[24..inp.len()]) {
        Ok(v) => v,
        Err(e) => {
            return Err(e);
        },
    };
    let p4 = match load_u8_to_u16x8(&inp[32..inp.len()]) {
        Ok(v) => v,
        Err(e) => {
            return Err(e);
        },
    };
    let p5 = match load_u8_to_u16x8(&inp[40..inp.len()]) {
        Ok(v) => v,
        Err(e) => {
            return Err(e);
        },
    };
    let v0 = u16x8_and(p0, n);
    proof {
        assert forall|i: int| 0 <= i < 8 implies #[trigger] u16x8_lanes(v0)[i] == vals[8 * 0 + i] by {
            lemma_split8(0, i);
        }
        lemma_row(v0, vals, 0);
    }
    put_row(out, pos, 0, v0, Ghost(vals), Ghost(prev))?;
    let v1 = u16x8_and(p1, n);
    proof {
        assert forall|i: int| 0 <= i < 8 implies #[trigger] u16x8_lanes(v1)[i] == vals[8 * 1 + i] by {
            lemma_split8(1, i);
        }
        lemma_row(v1, vals, 1);
    }
    put_row(out, pos, 1, v1, Ghost(vals), Ghost(prev))?;
    let v2 = u16x8_and(p2, n);
    proof {
        assert forall|i: int| 0 <= i < 8 implies #[trigger] u16x8_lanes(v2)[i] == vals[8 * 2 + i] by {
            lemma_split8(2, i);
        }
        lemma_row(v2, vals, 2);
    }
    put_row(out, pos, 2, v2, Ghost(vals), Ghost(prev))?;
    let v3 = u16x8_and(p3, n);
    proof {
        assert forall|i: int| 0 <= i < 8 implies #[trigger] u16x8_lanes(v3)[i] == vals[8 * 3 + i] by {
            lemma_split8(3, i);
        }
        lemma_row(v3, vals, 3);
    }
    put_row(out, pos, 3, v3, Ghost(vals), Ghost(prev))?;
    let v4 = u16x8_and(p4, n);
    proof {
        assert forall|i: int| 0 <= i < 8 implies #[trigger] u16x8_lanes(v4)[i] == vals[8 * 4 + i] by {
            lemma_split8(4, i);
        }
        lemma_row(v4, vals, 4);
    }
    put_row(out, pos, 4, v4, Ghost(vals), Ghost(prev))?;
    let v5 = u16x8_and(p5, n);
    proof {
        assert forall|i: int| 0 <= i < 8 implies #[trigger] u16x8_lanes(v5)[i] == vals[8 * 5 + i] by {
            lemma_split8(5, i);
        }
        lemma_row(v5, vals, 5);
    }
    put_row(out, pos, 5, v5, Ghost(vals), Ghost(prev))?;

    let v6 = u16x8_or(
        u16x8_or(
            u16x8_and(u16x8_shr(p0, 6u32), l),
            u16x8_shl(u16x8_and(u16x8_shr(p1, 6u32), l), 2u32),
        ),
        u16x8_shl(u16x8_and(u16x8_shr(p2, 6u32), l), 4u32),
    );
    proof {
        assert forall|i: int| 0 <= i < 8 implies #[trigger] u16x8_lanes(v6)[i] == vals[8 * 6 + i] by {
            lemma_split8(6, i);
        }
        lemma_row(v6, vals, 6);
    }
    put_row(out, pos, 6, v6, Ghost(vals), Ghost(prev))?;
    let v7 = u16x8_or(
        u16x8_or(
            u16x8_and(u16x8_shr(p3, 6u32), l),
            u16x8_shl(u16x8_and(u16x8_shr(p4, 6u32), l), 2u32),
        ),
        u16x8_shl(u16x8_and(u16x8_shr(p5, 6u32), l), 4u32),
    );
    proof {
        assert forall|i: int| 0 <= i < 8 implies #[trigger] u16x8_lanes(v7)[i] == vals[8 * 7 + i] by {
            lemma_split8(7, i);
        }
        lemma_row(v7, vals, 7);
    }
    put_row(out, pos, 7, v7, Ghost(vals), Ghost(prev))?;

    Ok(ENCODING_BLOCK_LENGTH[6])
}

fn decode8_one(
    out: &mut [u16],
    base: usize,
    j: usize,
    inp: &[u8],
    Ghost(bits): Ghost<u16>,
    Ghost(blk): Ghost<Seq<u8>>,
    Ghost(prev): Ghost<Seq<u16>>,
) -> (r: Result<usize>)
    requires
        7 <= bits <= 8,
        j < 8,
        base + 64 <= old(out).len(),
        blk.len() >= 64,
        inp@.len() >= 8,
        forall|i: int| 0 <= i < 8 ==> inp@[i] == blk[8 * j + i],
        rows_filled(old(out)@, prev, base as int, raw_block(bits, blk), 8 * j),
    ensures
        r == Ok::<usize, McRawError>(8),
        rows_filled(final(out)@, prev, base as int, raw_block(bits, blk), 8 * j + 8),
{
    let ghost vals = raw_block(bits, blk);
    let v = load_u8_to_u16x8(inp)?;
    proof {
        assert forall|i: int| 0 <= i < 8 implies #[trigger] u16x8_lanes(v)[i] == vals[8 * j + i] by {
            lemma_split8(j as int, i);
        }
        lemma_row(v, vals, j as int);
    }
    put_row(out, base, j, v, Ghost(vals), Ghost(prev))?;
    Ok(8)
}

fn decode8(out: &mut [u16], pos: usize, inp: &[u8], Ghost(bits): Ghost<u16>) -> (r: Result<usize>)
    requires
        7 <= bits <= 8,
        pos + 64 <= old(out).len(),
        inp@.len() >= raw_block_len(bits),
    ensures
        r == Ok::<usize, McRawError>(raw_block_len(bits) as usize),
        rows_filled(final(out)@, old(out)@, pos as int, raw_block(bits, inp@), 64),
{
    let mut o: usize = 0;
    let mut i: usize = 0;
    while i < 64
        invariant
            7 <= bits <= 8,
            i <= 64,
            i % 8 == 0,
            o == i,
            pos + 64 <= out.len(),
            inp@.len() >= 64,
            rows_filled(out@, old(out)@, pos as int, raw_block(bits, inp@), i as int),
        decreases 64 - i,
    {
        o += decode8_one(out, pos, i / 8, &inp[o..inp.len()], Ghost(bits), Ghost(inp@), Ghost(old(out)@))?;
        i += 8;
    }
    Ok(o)
}

proof fn lemma_raw10_bits(x: u16, y: u16)
    by (bit_vector)
    requires
        x < 256,
        y < 256,
    ensures
        (x & 255) | ((y & 3) << 8u32) == x | (((y >> 0u32) & 3) << 8u32),
        (x & 255) | ((y & (3u16 << 2u32)) << 6u32) == x | (((y >> 2u32) & 3) << 8u32),
        (x & 255) | ((y & (3u16 << 4u32)) << 4u32) == x | (((y >> 4u32) & 3) << 8u32),
        (x & 255) | ((y & (3u16 << 6u32)) << 2u32) == x | (((y >> 6u32) & 3) << 8u32),
{
}

fn decode10(out: &mut [u16], pos: usize, inp: &[u8], Ghost(bits): Ghost<u16>) -> (r: Result<usize>)
    requires
        9 <= bits <= 10,
        pos + 64 <= old(out).len(),
    ensures
        inp@.len() < raw_block_len(bits) ==> r == Err::<usize, McRawError>(McRawError::TruncatedData)
            && final(out)@ == old(out)@,
        inp@.len() >= raw_block_len(bits) ==> r == Ok::<usize, McRawError>(raw_block_len(bits) as usize)
            && rows_filled(final(out)@, old(out)@, pos as int, raw_block(bits, inp@), 64),
{
    let ghost vals = raw_block(bits, inp@);
    let ghost prev = out@;
    let n = u16x8_splat(0xFF);
    let l = u16x8_splat(0x03);

    let p0 = match load_u8_to_u16x8(inp) {
        Ok(v) => v,
        Err(e) => {
            return Err(e);
        },
    };
    let p1 = match load_u8_to_u16x8(&inp[8..inp.len()]) {
        Ok(v) => v,
        Err(e) => {
            return Err(e);
        },
    };
    let p2 = match load_u8_to_u16x8(&inp[16..inp.len()]) {
        Ok(v) => v,
        Err(e) => {
            return Err(e);
        },
    };
    let p3 = match load_u8_to_u16x8(&inp[24..inp.len()]) {
        Ok(v) => v,
        Err(e) => {
            return Err(e);
        },
    };
    let p4 = match load_u8_to_u16x8(&inp[32..inp.len()]) {
        Ok(v) => v,
        Err(e) => {
            return Err(e);
        },
    };
    let p5 = match load_u8_to_u16x8(&inp[40..inp.len()]) {
        Ok(v) => v,
        Err(e) => {
            return Err(e);
        },
    };
    let p6 = match load_u8_to_u16x8(&inp[48..inp.len()]) {
        Ok(v) => v,
        Err(e) => {
            return Err(e);
        },
    };
    let p7 = match load_u8_to_u16x8(&inp[56..inp.len()]) {
        Ok(v) => v,
        Err(e) => {
            return Err(e);
        },
    };
    let p8 = match load_u8_to_u16x8(&inp[64..inp.len()]) {
        Ok(v) => v,
        Err(e) => {
            return Err(e);
        },
    };
    let p9 = match load_u8_to_u16x8(&inp[72..inp.len()]) {
        Ok(v) => v,
        Err(e) => {
            return Err(e);
        },
    };

    let _r0 = u16x8_and(p0, n);
    let _r1 = u16x8_and(p1, n);
    let _r2 = u16x8_and(p2, n);
    let _r3 = u16x8_and(p3, n);

    let v0 = u16x8_or(_r0, u16x8_shl(u16x8_and(p4, l), 8u32));
    proof {
        assert forall|i: int| 0 <= i < 8 implies #[trigger] u16x8_lanes(v0)[i] == vals[8 * 0 + i] by {
            lemma_split8(0, i);
            lemma_raw10_bits(inp@[0 + i] as u16, inp@[32 + i] as u16);
        }
        lemma_row(v0, vals, 0);
    }
    put_row(out, pos, 0, v0, Ghost(vals), Ghost(prev))?;
    let v1 = u16x8_or(_r1, u16x8_shl(u16x8_and(p4, u16x8_shl(l, 2u32)), 6u32));
    proof {
        assert forall|i: int| 0 <= i < 8 implies #[trigger] u16x8_lanes(v1)[i] == vals[8 * 1 + i] by {
            lemma_split8(1, i);
            lemma_raw10_bits(inp@[8 + i] as u16, inp@[32 + i] as u16);
        }
        lemma_row(v1, vals, 1);
    }
    put_row(out, pos, 1, v1, Ghost(vals), Ghost(prev))?;
    let v2 = u16x8_or(_r2, u16x8_shl(u16x8_and(p4, u16x8_shl(l, 4u32)), 4u32));
    proof {
        assert forall|i: int| 0 <= i < 8 implies #[trigger] u16x8_lanes(v2)[i] == vals[8 * 2 + i] by {
            lemma_split8(2, i);
            lemma_raw10_bits(inp@[16 + i] as u16, inp@[32 + i] as u16);
        }
        lemma_row(v2, vals, 2);
    }
    put_row(out, pos, 2, v2, Ghost(vals), Ghost(prev))?;
    let v3 = u16x8_or(_r3, u16x8_shl(u16x8_and(p4, u16x8_shl(l, 6u32)), 2u32));
    proof {
        assert forall|i: int| 0 <= i < 8 implies #[trigger] u16x8_lanes(v3)[i] == vals[8 * 3 + i] by {
            lemma_split8(3, i);
            lemma_raw10_bits(inp@[24 + i] as u16, inp@[32 + i] as u16);
        }
        lemma_row(v3, vals, 3);
    }
    put_row(out, pos, 3, v3, Ghost(vals), Ghost(prev))?;

    let _r4 = u16x8_and(p5, n);
    let _r5 = u16x8_and(p6, n);
    let _r6 = u16x8_and(p7, n);
    let _r7 = u16x8_and(p8, n);

    let v4 = u16x8_or(_r4, u16x8_shl(u16x8_and(p9, l), 8u32));
    proof {
        assert forall|i: int| 0 <= i < 8 implies #[trigger] u16x8_lanes(v4)[i] == vals[8 * 4 + i] by {
            lemma_split8(4, i);
            lemma_raw10_bits(inp@[40 + i] as u16, inp@[72 + i] as u16);
        }
        lemma_row(v4, vals, 4);
    }
    put_row(out, pos, 4, v4, Ghost(vals), Ghost(prev))?;
    let v5 = u16x8_or(_r5, u16x8_shl(u16x8_and(p9, u16x8_shl(l, 2u32)), 6u32));
    proof {
        assert forall|i: int| 0 <= i < 8 implies #[trigger] u16x8_lanes(v5)[i] == vals[8 * 5 + i] by {
            lemma_split8(5, i);
            lemma_raw10_bits(inp@[48 + i] as u16, inp@[72 + i] as u16);
        }
        lemma_row(v5, vals, 5);
    }
    put_row(out, pos, 5, v5, Ghost(vals), Ghost(prev))?;
    let v6 = u16x8_or(_r6, u16x8_shl(u16x8_and(p9, u16x8_shl(l, 4u32)), 4u32));
    proof {
        assert forall|i: int| 0 <= i < 8 implies #[trigger] u16x8_lanes(v6)[i] == vals[8 * 6 + i] by {
            lemma_split8(6, i);
            lemma_raw10_bits(inp@[56 + i] as u16, inp@[72 + i] as u16);
        }
        lemma_row(v6, vals, 6);
    }
    put_row(out, pos, 6, v6, Ghost(vals), Ghost(prev))?;
    let v7 = u16x8_or(_r7, u16x8_shl(u16x8_and(p9, u16x8_shl(l, 6u32)), 2u32));
    proof {
        assert forall|i: int| 0 <= i < 8 implies #[trigger] u16x8_lanes(v7)[i] == vals[8 * 7 + i] by {
            lemma_split8(7, i);
            lemma_raw10_bits(inp@[64 + i] as u16, inp@[72 + i] as u16);
        }
        lemma_row(v7, vals, 7);
    }
    put_row(out, pos, 7, v7, Ghost(vals), Ghost(prev))?;

    Ok(ENCODING_BLOCK_LENGTH[10])
}

/// `u16::from_le_bytes` of two bytes.
fn u16_from_le_bytes(lo: u8, hi: u8) -> (r: u16)
    ensures
        r == (lo + 256 * hi) as u16,
{
    assert((lo as u16) | ((hi as u16) << 8u16) == (lo + 256 * hi) as u16) by (bit_vector);
    (lo as u16) | ((hi as u16) << 8)
}

fn decode16_one(
    out: &mut [u16],
    base: usize,
    j: usize,
    inp: &[u8],
    Ghost(bits): Ghost<u16>,
    Ghost(blk): Ghost<Seq<u8>>,
    Ghost(prev): Ghost<Seq<u16>>,
) -> (r: Result<usize>)
    requires
        11 <= bits <= 16,
        j < 8,
        base + 64 <= old(out).len(),
        blk.len() >= 128,
        inp@.len() >= 16 ==> forall|t: int| 0 <= t < 16 ==> inp@[t] == blk[16 * j + t],
        rows_filled(old(out)@, prev, base as int, raw_block(bits, blk), 8 * j),
    ensures
        inp@.len() < 16 ==> r == Err::<usize, McRawError>(McRawError::TruncatedData) && final(out)@
            == old(out)@,
        inp@.len() >= 16 ==> r == Ok::<usize, McRawError>(16) && rows_filled(
            final(out)@,
            prev,
            base as int,
            raw_block(bits, blk),
            8 * j + 8,
        ),
{
    let ghost vals = raw_block(bits, blk);
    if inp.len() < 16 {
        return Err(McRawError::TruncatedData);
    }
    let arr = [
        u16_from_le_bytes(inp[0], inp[1]),
        u16_from_le_bytes(inp[2], inp[3]),
        u16_from_le_bytes(inp[4], inp[5]),
        u16_from_le_bytes(inp[6], inp[7]),
        u16_from_le_bytes(inp[8], inp[9]),
        u16_from_le_bytes(inp[10], inp[11]),
        u16_from_le_bytes(inp[12], inp[13]),
        u16_from_le_bytes(inp[14], inp[15]),
    ];
    let v = u16x8_from_array(arr);
    proof {
        assert forall|i: int| 0 <= i < 8 implies #[trigger] u16x8_lanes(v)[i] == vals[8 * j + i] by {
            lemma_split8(j as int, i);
        }
        lemma_row(v, vals, j as int);
    }
    put_row(out, base, j, v, Ghost(vals), Ghost(prev))?;
    Ok(16)
}

fn decode16(out: &mut [u16], pos: usize, inp: &[u8], Ghost(bits): Ghost<u16>) -> (r: Result<usize>)
    requires
        11 <= bits <= 16,
        pos + 64 <= old(out).len(),
        inp@.len() >= raw_block_len(bits),
    ensures
        r == Ok::<usize, McRawError>(raw_block_len(bits) as usize),
        rows_filled(final(out)@, old(out)@, pos as int, raw_block(bits, inp@), 64),
{
    let mut o: usize = 0;
    let mut i: usize = 0;
    while i < 64
        invariant
            11 <= bits <= 16,
            i <= 64,
            i % 8 == 0,
            o == 2 * i,
            pos + 64 <= out.len(),
            inp@.len() >= 128,
            rows_filled(out@, old(out)@, pos as int, raw_block(bits, inp@), i as int),
        decreases 64 - i,
    {
        o += decode16_one(out, pos, i / 8, &inp[o..inp.len()], Ghost(bits), Ghost(inp@), Ghost(old(out)@))?;
        i += 8;
    }
    Ok(o)
}

/// What decoding one block of the given width at `offset` of `inp` gives:
/// the 64 samples and the offset after the block.  A block that does not fit
/// in the input is all zeros and takes the rest of the input.
pub open spec fn block_step(inp: Seq<u8>, offset: int, bits: u16) -> Result<(Seq<u16>, int)> {
    if bits > 16 {
        Err(McRawError::InvalidCompressionType(bits as i32))
    } else if offset + raw_block_len(bits) > inp.len() {
        Ok((Seq::new(64, |k: int| 0u16), inp.len() as int))
    } else {
        Ok((raw_block(bits, inp.subrange(offset, inp.len() as int)), offset + raw_block_len(bits)))
    }
}

/// Decodes the block of width `bits` at `offset` of `inp` into
/// `out[pos .. pos + 64]` and returns the number of input bytes it takes.
/// A block that does not fit in the input leaves `out` as it is and takes
/// the rest of the input.
fn decode_block(out: &mut [u16], pos: usize, bits: u16, inp: &[u8], offset: usize, len: usize) -> (r:
    Result<usize>)
    requires
        len <= inp@.len(),
        len <= isize::MAX,
        bits <= 16 ==> offset <= len,
        pos <= old(out)@.len(),
        bits == 0 ==> pos + 64 <= old(out)@.len(),
    ensures
        final(out)@.len() == old(out)@.len(),
        bits > 16 ==> r == Err::<usize, McRawError>(McRawError::InvalidCompressionType(bits as i32))
            && final(out)@ == old(out)@,
        bits <= 16 && offset + raw_block_len(bits) > len ==> r == Ok::<usize, McRawError>(
            (len - offset) as usize,
        ) && final(out)@ == old(out)@,
        bits <= 16 && offset + raw_block_len(bits) <= len && pos + 64 > old(out)@.len() ==> r
            == Err::<usize, McRawError>(McRawError::TruncatedData) && final(out)@ == old(out)@,
        bits <= 16 && offset + raw_block_len(bits) <= len && pos + 64 <= old(out)@.len() ==> r
            == Ok::<usize, McRawError>(raw_block_len(bits) as usize) && rows_filled(
            final(out)@,
            old(out)@,
            pos as int,
            raw_block(bits, inp@.subrange(offset as int, len as int)),
            64,
        ),
{
    if bits as usize >= ENCODING_BLOCK_LENGTH.len() {
        return Err(McRawError::InvalidCompressionType(bits as i32));
    }
    let block_len = ENCODING_BLOCK_LENGTH[bits as usize];
    if offset + block_len > len {
        return Ok(len - offset);
    }
    let slice = &inp[offset..len];
    if bits == 0 {
        let ghost prev = out@;
        let mut k: usize = 0;
        while k < ENCODING_BLOCK
            invariant
                k <= 64,
                pos + 64 <= out.len(),
                rows_filled(out@, prev, pos as int, raw_block(0, slice@), k as int),
            decreases 64 - k,
        {
            out[pos + k] = 0;
            k = k + 1;
        }
        return Ok(0);
    }
    if out.len() - pos < ENCODING_BLOCK {
        return Err(McRawError::TruncatedData);
    }
    match bits {
        1 => decode1(out, pos, slice),
        2 => decode2(out, pos, slice),
        3 => decode3(out, pos, slice),
        4 => decode4(out, pos, slice),
        5 => decode5(out, pos, slice),
        6 => decode6(out, pos, slice),
        7 | 8 => decode8(out, pos, slice, Ghost(bits)),
        9 | 10 => decode10(out, pos, slice, Ghost(bits)),
        _ => decode16(out, pos, slice, Ghost(bits)),
    }
}

/// The 64 samples of a block that the buffer keeps: `prev`, then zeros.
pub open spec fn kept_block(prev: Seq<u16>) -> Seq<u16> {
    Seq::new(64, |k: int| if k < prev.len() { prev[k] } else { 0u16 })
}

/// The block of a metadata chunk: its 64 samples and the offset after it,
/// given the room left in the metadata buffer and the entries `prev` the
/// buffer holds there; `None` where decoding breaks down (a zero-width block
/// with less than 64 entries of room).  A block that does not fit in the
/// input leaves the buffer as it is, so its samples are `prev`.
pub open spec fn meta_block(inp: Seq<u8>, o: int, bits: u8, room: int, prev: Seq<u16>) -> Option<
    Result<(Seq<u16>, int)>,
> {
    if o + raw_block_len(bits as u16) > inp.len() {
        Some(
            Ok(
                (kept_block(prev), inp.len() as int),
            ),
        )
    } else if room < 64 {
        if bits == 0 {
            None
        } else {
            Some(Err(McRawError::TruncatedData))
        }
    } else {
        Some(
            Ok(
                (
                    raw_block(bits as u16, inp.subrange(o, inp.len() as int)),
                    o + raw_block_len(bits as u16),
                ),
            ),
        )
    }
}

/// Decodes metadata entries `i .. n` (chunks of up to 64, each a header,
/// a block, and the header's reference added to every entry) after those
/// already in `acc`, over a buffer that starts out as `init`: all `n`
/// entries and the offset after them, an error, or `None` where decoding
/// breaks down.
pub open spec fn meta_chunks(
    inp: Seq<u8>,
    offset: int,
    acc: Seq<u16>,
    i: nat,
    n: nat,
    init: Seq<u16>,
) -> Option<Result<(Seq<u16>, int)>>
    decreases n + 64 - i,
{
    if i >= n {
        Some(Ok((acc, offset)))
    } else if offset + 2 > inp.len() {
        Some(Err(McRawError::TruncatedData))
    } else {
        let bits = header_bits(inp[offset]);
        let reference = header_reference(inp[offset], inp[offset + 1]);
        let cnt = chunk_len(n as int, i as int);
        match meta_block(inp, offset + 2, bits, n - i, init.subrange(i as int, i + chunk_len(n as int, i as int))) {
            None => None,
            Some(Err(e)) => Some(Err(e)),
            Some(Ok((blk, o))) => {
                if exists|x: int| 0 <= x < cnt && #[trigger] blk[x] + reference > u16::MAX {
                    None
                } else if i + 64 > usize::MAX {
                    None
                } else {
                    meta_chunks(
                        inp,
                        o,
                        acc + Seq::new(cnt as nat, |x: int| (blk[x] + reference) as u16),
                        i + 64,
                        n,
                        init,
                    )
                }
            },
        }
    }
}

/// The number of entries of the chunk from entry `i` of `n`: up to 64.
pub open spec fn chunk_len(n: int, i: int) -> int {
    if n - i < 64 {
        n - i
    } else {
        64
    }
}

/// `old` resized to `n` entries: cut, or padded with zeros.
pub open spec fn resized(old: Seq<u16>, n: nat) -> Seq<u16> {
    Seq::new(n, |k: int| if k < old.len() { old[k] } else { 0u16 })
}

/// The metadata table (entry count, then chunks) at `offset` of `inp`,
/// decoded into a buffer that held `old`: its entries and the offset after
/// it, an error, or `None` where decoding breaks down.  Entries of blocks
/// cut off by the end of the input keep what the buffer held (zeros for an
/// empty buffer), plus the reference.
pub open spec fn raw_metadata(inp: Seq<u8>, offset: int, old: Seq<u16>) -> Option<
    Result<(Seq<u16>, int)>,
> {
    if offset + 4 > inp.len() {
        Some(Err(McRawError::TruncatedData))
    } else {
        meta_chunks(
            inp,
            offset + 4,
            Seq::empty(),
            0,
            le_u32(inp, offset) as nat,
            resized(old, le_u32(inp, offset) as nat),
        )
    }
}

/// Decodes the metadata table at `offset` into `out`; `None` where decoding breaks down.
fn decode_metadata(inp: &[u8], start: usize, len: usize, out: &mut Vec<u16>) -> (r: Option<
    Result<usize>,
>)
    requires
        len == inp@.len(),
        len <= isize::MAX,
        start <= usize::MAX - 4,
    ensures
        start + 4 > len ==> final(out)@ == old(out)@,
        match raw_metadata(inp@, start as int, old(out)@) {
            None => r is None,
            Some(Err(e)) => r == Some(Err::<usize, McRawError>(e)),
            Some(Ok((vals, o))) => r == Some(Ok::<usize, McRawError>(o as usize)) && final(out)@
                == vals,
        },
{
    let ghost inp_s = inp@;
    let offset = start;
    let ghost off_in = offset as int;
    let ghost old_out = out@;
    let ghost full = raw_metadata(inp_s, off_in, old_out);
    if offset + 4 > len {
        return Some(Err(McRawError::TruncatedData));
    }
    let num_blocks = match read_le_bytes::<4>(inp, offset) {
        Ok(a) => u32_from_le_bytes(a) as usize,
        Err(e) => {
            return Some(Err(e));
        },
    };
    let mut offset = offset + 4;
    out.resize(num_blocks, 0);
    let ghost n = num_blocks as nat;
    let ghost init = resized(old_out, n);
    assert(out@ =~= init);
    assert(full == meta_chunks(inp_s, offset as int, Seq::empty(), 0, n, init));
    let ghost mut acc: Seq<u16> = Seq::empty();
    let mut ptr: usize = 0;
    let mut i: usize = 0;
    while i < num_blocks
        invariant
            len == inp@.len(),
            inp@ == inp_s,
            len <= isize::MAX,
            offset <= len,
            ptr == i,
            i <= num_blocks + 63,
            out@.len() == num_blocks,
            acc.len() == if i <= num_blocks { i as int } else { num_blocks as int },
            out@.subrange(0, acc.len() as int) == acc,
            init.len() == n,
            forall|t: int| acc.len() <= t < out@.len() ==> #[trigger] out@[t] == init[t],
            meta_chunks(inp_s, offset as int, acc, i as nat, n, init) == full,
            full == raw_metadata(inp_s, off_in, old_out),
            off_in == start,
            old_out == old(out)@,
            start + 4 <= len,
            n == num_blocks,
        decreases num_blocks + 64 - i,
    {
        let (bits, reference) = match decode_header(&inp[offset..len]) {
            Ok(h) => h,
            Err(e) => {
                assert(meta_chunks(inp_s, offset as int, acc, i as nat, n, init) == Some(
                    Err::<(Seq<u16>, int), McRawError>(McRawError::TruncatedData),
                ));
                return Some(Err(e));
            },
        };
        let ghost o_hdr = offset as int;
        offset += HEADER_LENGTH;
        if bits == 0 && num_blocks - i < ENCODING_BLOCK {
            assert(bits == header_bits(inp_s[o_hdr]));
            assert(meta_chunks(inp_s, o_hdr, acc, i as nat, n, init) is None);
            return None;
        }
        let ghost before = out@;
        let consumed = match decode_block(out.as_mut_slice(), ptr, bits as u16, inp, offset, len) {
            Ok(c) => c,
            Err(e) => {
                return Some(Err(e));
            },
        };
        let ghost cnt_g: int = chunk_len(n as int, i as int);
        let ghost blk_o = meta_block(
            inp_s,
            offset as int,
            bits,
            num_blocks - i,
            init.subrange(i as int, i + cnt_g),
        );
        offset += consumed;
        let cnt = if num_blocks - i < ENCODING_BLOCK {
            num_blocks - i
        } else {
            ENCODING_BLOCK
        };
        let ghost blk = blk_o.unwrap().unwrap().0;
        assert forall|x: int| 0 <= x < cnt implies out@[ptr + x] == blk[x] by {
            if offset as int == len as int && o_hdr + 2 + raw_block_len(bits as u16) > len {
            }
        }
        let ghost mid = out@;
        let mut x: usize = 0;
        #[verifier::loop_isolation(false)]
        while x < cnt
            invariant
                x <= cnt,
                cnt <= 64,
                ptr + cnt <= out.len(),
                out@.len() == mid.len(),
                forall|t: int|
                    0 <= t < out@.len() ==> #[trigger] out@[t] == if ptr <= t < ptr + x {
                        (blk[t - ptr] + reference) as u16
                    } else {
                        mid[t]
                    },
                forall|t: int| 0 <= t < x ==> #[trigger] blk[t] + reference <= u16::MAX,
                forall|t: int| 0 <= t < cnt ==> mid[ptr + t] == #[trigger] blk[t],
            decreases cnt - x,
        {
            assert(ptr + x < out@.len());
            if out[ptr + x] > u16::MAX - reference {
                assert(blk[x as int] + reference > u16::MAX);
                assert(meta_chunks(inp_s, o_hdr, acc, i as nat, n, init) is None);
                return None;
            }
            out[ptr + x] = out[ptr + x] + reference;
            x = x + 1;
        }
        proof {
            let add = Seq::new(cnt as nat, |y: int| (blk[y] + reference) as u16);
            acc = acc + add;
            assert(out@.subrange(0, acc.len() as int) =~= acc);
        }
        if i > usize::MAX - ENCODING_BLOCK {
            return None;
        }
        ptr += ENCODING_BLOCK;
        i += ENCODING_BLOCK;
    }
    Some(Ok(offset))
}

/// Sample `k` of a tile (four rows of 64, row-major) made of four decoded
/// blocks `ps` with references `rs`: rows alternate between the samples of
/// blocks 0 and 1 (rows 0 and 2) or of blocks 2 and 3 (rows 1 and 3);
/// rows 0 and 1 take the first half of each block, rows 2 and 3 the second.
pub open spec fn tile_sum(ps: Seq<Seq<u16>>, rs: Seq<u16>, k: int) -> int {
    let row = k / 64;
    let c = k % 64;
    let blk = 2 * (row % 2) + c % 2;
    ps[blk][32 * (row / 2) + c / 2] + rs[blk]
}

/// Decodes the four blocks of a tile, with widths `bs` and references
/// `rs`, from `offset`: the tile's 256 samples and the offset after it, an
/// error, or `None` where decoding breaks down (a sum overflows).
pub open spec fn raw_tile(input: Seq<u8>, offset: int, bs: Seq<u16>, rs: Seq<u16>) -> Option<
    Result<(Seq<u16>, int)>,
> {
    match block_step(input, offset, bs[0]) {
        Err(e) => Some(Err(e)),
        Ok((p0, o1)) => match block_step(input, o1, bs[1]) {
            Err(e) => Some(Err(e)),
            Ok((p1, o2)) => match block_step(input, o2, bs[2]) {
                Err(e) => Some(Err(e)),
                Ok((p2, o3)) => match block_step(input, o3, bs[3]) {
                    Err(e) => Some(Err(e)),
                    Ok((p3, o4)) => {
                        let ps = seq![p0, p1, p2, p3];
                        if exists|k: int| 0 <= k < 256 && #[trigger] tile_sum(ps, rs, k) > u16::MAX {
                            None
                        } else {
                            Some(Ok((Seq::new(256, |k: int| tile_sum(ps, rs, k) as u16), o4)))
                        }
                    },
                },
            },
        },
    }
}

/// The layout of a decoded tile, from its four decoded blocks `p0 .. p3`
/// (in input order) and references `rs`: rows 0 and 2 interleave blocks 0
/// and 1 (block 0 in the even columns), rows 1 and 3 interleave blocks 2
/// and 3; rows 0 and 1 take the first 32 samples of each block, rows 2 and
/// 3 the last 32.  Each sample is the block's sample plus its reference.
pub proof fn lemma_tile_layout(input: Seq<u8>, offset: int, bs: Seq<u16>, rs: Seq<u16>, m: int)
    requires
        0 <= m < 32,
    ensures
        block_step(input, offset, bs[0]) matches Ok((p0, o1)) ==> block_step(input, o1, bs[1]) matches Ok(
            (p1, o2),
        ) ==> block_step(input, o2, bs[2]) matches Ok((p2, o3)) ==> block_step(input, o3, bs[3]) matches Ok(
            (p3, _),
        ) ==> raw_tile(input, offset, bs, rs) matches Some(Ok((tile, _))) ==> {
            &&& tile[2 * m] == p0[m] + rs[0]
            &&& tile[2 * m + 1] == p1[m] + rs[1]
            &&& tile[64 + 2 * m] == p2[m] + rs[2]
            &&& tile[64 + 2 * m + 1] == p3[m] + rs[3]
            &&& tile[128 + 2 * m] == p0[32 + m] + rs[0]
            &&& tile[128 + 2 * m + 1] == p1[32 + m] + rs[1]
            &&& tile[192 + 2 * m] == p2[32 + m] + rs[2]
            &&& tile[192 + 2 * m + 1] == p3[32 + m] + rs[3]
        },
{
    if let Ok((p0, o1)) = block_step(input, offset, bs[0]) {
        if let Ok((p1, o2)) = block_step(input, o1, bs[1]) {
            if let Ok((p2, o3)) = block_step(input, o2, bs[2]) {
                if let Ok((p3, o4)) = block_step(input, o3, bs[3]) {
                    let ps = seq![p0, p1, p2, p3];
                    assert forall|r: int, c: int| 0 <= r < 4 && 0 <= c < 64 implies (#[trigger] tile_sum(
                        ps,
                        rs,
                        64 * r + c,
                    )) == ps[2 * (r % 2) + c % 2][32 * (r / 2) + c / 2] + rs[2 * (r % 2) + c % 2] by {
                        lemma_split64(r, c);
                    }
                    assert(tile_sum(ps, rs, 64 * 0 + 2 * m) == p0[m] + rs[0]);
                    assert(tile_sum(ps, rs, 64 * 0 + 2 * m + 1) == p1[m] + rs[1]);
                    assert(tile_sum(ps, rs, 64 * 1 + 2 * m) == p2[m] + rs[2]);
                    assert(tile_sum(ps, rs, 64 * 1 + 2 * m + 1) == p3[m] + rs[3]);
                    assert(tile_sum(ps, rs, 64 * 2 + 2 * m) == p0[32 + m] + rs[0]);
                    assert(tile_sum(ps, rs, 64 * 2 + 2 * m + 1) == p1[32 + m] + rs[1]);
                    assert(tile_sum(ps, rs, 64 * 3 + 2 * m) == p2[32 + m] + rs[2]);
                    assert(tile_sum(ps, rs, 64 * 3 + 2 * m + 1) == p3[32 + m] + rs[3]);
                }
            }
        }
    }
}

/// Decodes tiles `t .. ntiles` of a group of four rows, after the tiles in
/// `acc`: all the group's tiles, the input offset and metadata index after
/// them, an error, or `None` where decoding breaks down (the
/// metadata runs out, or a sum overflows).
pub open spec fn raw_group(
    input: Seq<u8>,
    offset: int,
    bits: Seq<u16>,
    refs: Seq<u16>,
    meta: int,
    t: nat,
    ntiles: nat,
    acc: Seq<Seq<u16>>,
) -> Option<Result<(Seq<Seq<u16>>, int, int)>>
    decreases ntiles - t,
{
    if t >= ntiles {
        Some(Ok((acc, offset, meta)))
    } else if meta + 4 > bits.len() || meta + 4 > refs.len() {
        None
    } else {
        match raw_tile(input, offset, bits.subrange(meta, meta + 4), refs.subrange(meta, meta + 4)) {
            None => None,
            Some(Err(e)) => Some(Err(e)),
            Some(Ok((tile, o))) => raw_group(
                input,
                o,
                bits,
                refs,
                meta + 4,
                t + 1,
                ntiles,
                acc.push(tile),
            ),
        }
    }
}

/// `out` with the four rows of a group (the first `width` samples of each)
/// written one after the other from `idx`.
pub open spec fn write_group(out: Seq<u16>, idx: int, width: int, tiles: Seq<Seq<u16>>) -> Seq<u16> {
    Seq::new(
        out.len(),
        |p: int|
            if idx <= p < idx + 4 * width {
                let k = (p - idx) / width;
                let c = (p - idx) % width;
                tiles[c / 64][64 * k + c % 64]
            } else {
                out[p]
            },
    )
}

/// Writing a group of four rows: row `k` of the group starts `k * width`
/// samples after `idx`, and its column `c` is sample `64 * k + c % 64` of
/// tile `c / 64` (tiles left to right); the rest of `out` is kept.
pub proof fn lemma_group_layout(out: Seq<u16>, idx: int, width: int, tiles: Seq<Seq<u16>>, k: int, c: int)
    requires
        0 < width,
        0 <= idx,
        idx + 4 * width <= out.len(),
        0 <= k < 4,
        0 <= c < width,
    ensures
        write_group(out, idx, width, tiles)[idx + k * width + c] == tiles[c / 64][64 * k + c % 64],
        forall|p: int|
            0 <= p < out.len() && !(idx <= p < idx + 4 * width) ==> #[trigger] write_group(
                out,
                idx,
                width,
                tiles,
            )[p] == out[p],
{
    lemma_row_split(width, k, c);
    assert(k * width + c < 4 * width) by (nonlinear_arith)
        requires
            0 <= k < 4,
            0 <= c < width,
    ;
}

/// Decodes groups `g .. ngroups` of four rows each, writing them to `out`
/// from `out_idx`: the number of samples written (or an error) and the
/// output afterwards, or `None` where decoding breaks down (also
/// when `out` is too short for a group).
pub open spec fn raw_groups(
    input: Seq<u8>,
    width: int,
    enc_w: int,
    bits: Seq<u16>,
    refs: Seq<u16>,
    offset: int,
    meta: int,
    out: Seq<u16>,
    out_idx: int,
    g: nat,
    ngroups: nat,
) -> Option<(Result<int>, Seq<u16>)>
    decreases ngroups - g,
{
    if g >= ngroups {
        Some((Ok(out_idx), out))
    } else {
        match raw_group(input, offset, bits, refs, meta, 0, (enc_w / 64) as nat, Seq::empty()) {
            None => None,
            Some(Err(e)) => Some((Err(e), out)),
            Some(Ok((tiles, o, m))) => if out_idx + 4 * width > out.len() {
                None
            } else {
                raw_groups(
                    input,
                    width,
                    enc_w,
                    bits,
                    refs,
                    o,
                    m,
                    write_group(out, out_idx, width, tiles),
                    out_idx + 4 * width,
                    g + 1,
                    ngroups,
                )
            },
        }
    }
}

/// Decoding groups of rows writes `4 * width` samples per group from
/// `out_idx` on: the output keeps its length, and where decoding ends
/// without error the count returned is the end of what was written, with
/// every sample from there on left as it was.
proof fn lemma_raw_groups_written(
    input: Seq<u8>,
    width: int,
    enc_w: int,
    bits: Seq<u16>,
    refs: Seq<u16>,
    offset: int,
    meta: int,
    out: Seq<u16>,
    out_idx: int,
    g: nat,
    ngroups: nat,
)
    requires
        width >= 0,
        out_idx >= 0,
        g <= ngroups,
    ensures
        raw_groups(input, width, enc_w, bits, refs, offset, meta, out, out_idx, g, ngroups) matches Some(
            (res, o),
        ) ==> {
            &&& o.len() == out.len()
            &&& res matches Ok(n) ==> n == out_idx + 4 * width * (ngroups - g) && forall|p: int|
                n <= p < o.len() ==> #[trigger] o[p] == out[p]
        },
    decreases ngroups - g,
{
    if g < ngroups {
        match raw_group(input, offset, bits, refs, meta, 0, (enc_w / 64) as nat, Seq::empty()) {
            Some(Ok((tiles, o, m))) => {
                if out_idx + 4 * width <= out.len() {
                    let next = write_group(out, out_idx, width, tiles);
                    lemma_raw_groups_written(
                        input,
                        width,
                        enc_w,
                        bits,
                        refs,
                        o,
                        m,
                        next,
                        out_idx + 4 * width,
                        g + 1,
                        ngroups,
                    );
                    assert(out_idx + 4 * width + 4 * width * (ngroups - (g + 1)) == out_idx + 4 * width
                        * (ngroups - g)) by (nonlinear_arith)
                        requires
                            g < ngroups,
                    ;
                    assert(4 * width * (ngroups - (g + 1)) >= 0) by (nonlinear_arith)
                        requires
                            g < ngroups,
                            width >= 0,
                    ;
                    if let Some((Ok(n), o2)) = raw_groups(
                        input,
                        width,
                        enc_w,
                        bits,
                        refs,
                        o,
                        m,
                        next,
                        out_idx + 4 * width,
                        g + 1,
                        ngroups,
                    ) {
                        assert forall|p: int| n <= p < o2.len() implies #[trigger] o2[p] == out[p] by {
                            assert(next[p] == out[p]);
                        }
                    }
                }
            },
            _ => {},
        }
    } else {
        assert(4 * width * (ngroups - g) == 0) by (nonlinear_arith)
            requires
                g == ngroups,
        ;
    }
}

/// Decoding the tiles `t .. ntiles` of a group reads the metadata entries
/// from `meta` on, four per tile: it ends at entry `meta + 4 * (ntiles - t)`
/// with one tile per step after those in `acc`, and the first of them is
/// the tile decoded with entries `meta .. meta + 4` of the widths and of
/// the references (the next starts from entry `meta + 4`, and so on).
pub proof fn lemma_raw_group_meta(
    input: Seq<u8>,
    offset: int,
    bits: Seq<u16>,
    refs: Seq<u16>,
    meta: int,
    t: nat,
    ntiles: nat,
    acc: Seq<Seq<u16>>,
)
    requires
        t <= ntiles,
    ensures
        raw_group(input, offset, bits, refs, meta, t, ntiles, acc) matches Some(Ok((tiles, _, m))) ==> {
            &&& m == meta + 4 * (ntiles - t)
            &&& tiles.len() == acc.len() + (ntiles - t)
            &&& tiles.subrange(0, acc.len() as int) == acc
        },
        t < ntiles ==> (raw_group(input, offset, bits, refs, meta, t, ntiles, acc) matches Some(
            Ok((tiles, _, _)),
        ) ==> raw_tile(
            input,
            offset,
            bits.subrange(meta, meta + 4),
            refs.subrange(meta, meta + 4),
        ) matches Some(Ok((tile, _))) && tiles[acc.len() as int] == tile),
    decreases ntiles - t,
{
    if t < ntiles && !(meta + 4 > bits.len() || meta + 4 > refs.len()) {
        if let Some(Ok((tile, o))) = raw_tile(
            input,
            offset,
            bits.subrange(meta, meta + 4),
            refs.subrange(meta, meta + 4),
        ) {
            lemma_raw_group_meta(input, o, bits, refs, meta + 4, t + 1, ntiles, acc.push(tile));
            if let Some(Ok((tiles, _, m))) = raw_group(
                input,
                o,
                bits,
                refs,
                meta + 4,
                t + 1,
                ntiles,
                acc.push(tile),
            ) {
                assert(tiles.subrange(0, acc.len() as int) =~= acc.push(tile).subrange(
                    0,
                    acc.len() as int,
                ));
                assert(tiles.subrange(0, (acc.len() + 1) as int)[acc.len() as int] == tile);
            }
        }
    }
}

/// Consecutive groups of rows read consecutive stretches of the metadata:
/// once a group of `ntiles = enc_w / 64` tiles is decoded from `offset`
/// with entries from `meta`, the next group is decoded from where its input
/// ended, with entries from `meta + 4 * ntiles`, its rows written after
/// the group's.
pub proof fn lemma_raw_groups_step(
    input: Seq<u8>,
    width: int,
    enc_w: int,
    bits: Seq<u16>,
    refs: Seq<u16>,
    offset: int,
    meta: int,
    out: Seq<u16>,
    out_idx: int,
    g: nat,
    ngroups: nat,
)
    requires
        g < ngroups,
        enc_w >= 0,
    ensures
        raw_group(input, offset, bits, refs, meta, 0, (enc_w / 64) as nat, Seq::empty()) matches Some(
            Ok((tiles, o, _)),
        ) ==> out_idx + 4 * width <= out.len() ==> raw_groups(
            input,
            width,
            enc_w,
            bits,
            refs,
            offset,
            meta,
            out,
            out_idx,
            g,
            ngroups,
        ) == raw_groups(
            input,
            width,
            enc_w,
            bits,
            refs,
            o,
            meta + 4 * (enc_w / 64),
            write_group(out, out_idx, width, tiles),
            out_idx + 4 * width,
            g + 1,
            ngroups,
        ),
{
    lemma_raw_group_meta(input, offset, bits, refs, meta, 0, (enc_w / 64) as nat, Seq::empty());
}

/// How decoding a type 7 frame ends.
pub enum RawStatus {
    /// The frame was decoded; this many samples were written.
    Decoded(int),
    /// Decoding failed with this error.
    Failed(McRawError),
    /// The frame header is inconsistent (`DecompressionFailed`).
    BadHeader,
}

/// Decoding a type 7 frame of rows of `width` samples into `out`: how it
/// ends and what `out` holds afterwards, or `None` where decoding breaks down.
///
/// The frame starts with four little-endian 32-bit numbers: the encoded
/// width (a multiple of 64, at least `width`), the encoded height, and the
/// offsets of the tables of block widths and of block references.  Blocks
/// follow from byte 16; each group of four rows is a sequence of tiles of
/// 64 columns, each tile four blocks.
pub open spec fn raw_frame(input: Seq<u8>, width: nat, out: Seq<u16>) -> Option<(RawStatus, Seq<u16>)> {
    if input.len() < 16 {
        Some((RawStatus::Failed(McRawError::TruncatedData), out))
    } else {
        let enc_w = le_u32(input, 0) as int;
        let enc_h = le_u32(input, 4) as int;
        let bits_off = le_u32(input, 8) as int;
        let refs_off = le_u32(input, 12) as int;
        if bits_off > input.len() || refs_off > input.len() || enc_w % 64 != 0 || enc_w < width {
            Some((RawStatus::BadHeader, out))
        } else {
            match raw_metadata(input, bits_off, Seq::empty()) {
                None => None,
                Some(Err(e)) => Some((RawStatus::Failed(e), out)),
                Some(Ok((bits, _))) => match raw_metadata(input, refs_off, Seq::empty()) {
                    None => None,
                    Some(Err(e)) => Some((RawStatus::Failed(e), out)),
                    Some(Ok((refs, _))) => match raw_groups(
                        input,
                        width as int,
                        enc_w,
                        bits,
                        refs,
                        16,
                        0,
                        out,
                        0,
                        0,
                        ((enc_h + 3) / 4) as nat,
                    ) {
                        None => None,
                        Some((Ok(n), o)) => Some((RawStatus::Decoded(n), o)),
                        Some((Err(e), o)) => Some((RawStatus::Failed(e), o)),
                    },
                },
            }
        }
    }
}

/// A decoded type 7 frame is `4 * width` samples for each group of four
/// encoded rows (the encoded height rounded up to a multiple of 4): the
/// count returned is that number, the output keeps its length, and the
/// samples after those written are left as they were.
pub proof fn lemma_raw_frame_written(input: Seq<u8>, width: nat, out: Seq<u16>)
    ensures
        raw_frame(input, width, out) matches Some((st, o)) ==> {
            &&& o.len() == out.len()
            &&& st matches RawStatus::Decoded(n) ==> {
                &&& n == 4 * width * ((le_u32(input, 4) + 3) / 4)
                &&& forall|p: int| n <= p < o.len() ==> #[trigger] o[p] == out[p]
            }
        },
{
    if input.len() >= 16 {
        let enc_w = le_u32(input, 0) as int;
        let enc_h = le_u32(input, 4) as int;
        let bits_off = le_u32(input, 8) as int;
        let refs_off = le_u32(input, 12) as int;
        if !(bits_off > input.len() || refs_off > input.len() || enc_w % 64 != 0 || enc_w < width) {
            if let Some(Ok((bits, _))) = raw_metadata(input, bits_off, Seq::empty()) {
                if let Some(Ok((refs, _))) = raw_metadata(input, refs_off, Seq::empty()) {
                    lemma_raw_groups_written(
                        input,
                        width as int,
                        enc_w,
                        bits,
                        refs,
                        16,
                        0,
                        out,
                        0,
                        0,
                        ((enc_h + 3) / 4) as nat,
                    );
                }
            }
        }
    }
}

/// Four decoded blocks, in order.
pub open spec fn four(a: Seq<u16>, b: Seq<u16>, c: Seq<u16>, d: Seq<u16>) -> Seq<Seq<u16>> {
    seq![a, b, c, d]
}

proof fn lemma_split64(k: int, c: int)
    requires
        0 <= k,
        0 <= c < 64,
    ensures
        (64 * k + c) / 64 == k,
        (64 * k + c) % 64 == c,
{
    vstd::arithmetic::div_mod::lemma_fundamental_div_mod_converse(64 * k + c, 64, k, c);
}

/// `row` with the 64 samples from `x` replaced by row `k` of `tile`.
pub open spec fn put_tile_row(row: Seq<u16>, x: int, tile: Seq<u16>, k: int) -> Seq<u16> {
    Seq::new(row.len(), |t: int| if x <= t < x + 64 { tile[64 * k + t - x] } else { row[t] })
}

/// The block that `decode_block` leaves in a 64-sample buffer of zeros.
proof fn lemma_block_buffer(buf: Seq<u16>, inp: Seq<u8>, offset: int, bits: u16)
    requires
        bits <= 16,
        0 <= offset <= inp.len(),
        buf.len() == 64,
        offset + raw_block_len(bits) > inp.len() ==> buf == Seq::new(64, |k: int| 0u16),
        offset + raw_block_len(bits) <= inp.len() ==> rows_filled(
            buf,
            Seq::new(64, |k: int| 0u16),
            0,
            raw_block(bits, inp.subrange(offset, inp.len() as int)),
            64,
        ),
    ensures
        block_step(inp, offset, bits) matches Ok((blk, _)) && buf == blk,
{
    if offset + raw_block_len(bits) <= inp.len() {
        let blk = raw_block(bits, inp.subrange(offset, inp.len() as int));
        assert forall|k: int| 0 <= k < 64 implies buf[k] == blk[k] by {
            assert(buf[0 + k] == blk[k]);
        }
        assert(buf =~= blk);
    }
}

/// Writes the tile of four decoded blocks and their references into
/// columns `x .. x + 64` of the four rows; `false` (where decoding breaks down) when a sample plus its reference overflows 16 bits.
fn fill_tile(
    rows: &mut [Vec<u16>; 4],
    x: usize,
    p0: &[u16; 64],
    p1: &[u16; 64],
    p2: &[u16; 64],
    p3: &[u16; 64],
    r: &[u16; 4],
) -> (ok: bool)
    requires
        x <= usize::MAX - 64,
        forall|k: int| 0 <= k < 4 ==> x + 64 <= (#[trigger] old(rows)@[k])@.len(),
    ensures
        forall|k: int| 0 <= k < 4 ==> (#[trigger] final(rows)@[k])@.len() == old(rows)@[k]@.len(),
        ok == forall|k: int|
            0 <= k < 256 ==> #[trigger] tile_sum(four(p0@, p1@, p2@, p3@), r@, k) <= u16::MAX,
        ok ==> forall|k: int|
            0 <= k < 4 ==> (#[trigger] final(rows)@[k])@ == put_tile_row(
                old(rows)@[k]@,
                x as int,
                Seq::new(256, |t: int| tile_sum(four(p0@, p1@, p2@, p3@), r@, t) as u16),
                k,
            ),
{
    let ghost ps = four(p0@, p1@, p2@, p3@);
    let ghost rs = r@;
    let ghost old_rows = rows@;
    let mut i: usize = 0;
    while i < ENCODING_BLOCK
        invariant
            i <= 64,
            i % 2 == 0,
            x <= usize::MAX - 64,
            ps == four(p0@, p1@, p2@, p3@),
            rs == r@,
            old_rows == old(rows)@,
            forall|k: int| 0 <= k < 4 ==> x + 64 <= (#[trigger] rows@[k])@.len(),
            forall|k: int| 0 <= k < 4 ==> (#[trigger] rows@[k])@.len() == old_rows[k]@.len(),
            forall|k: int, c: int|
                0 <= k < 4 && 0 <= c < i ==> #[trigger] tile_sum(ps, rs, 64 * k + c) <= u16::MAX,
            forall|k: int, c: int|
                0 <= k < 4 && 0 <= c < i ==> rows@[k]@[x + c] == #[trigger] tile_sum(
                    ps,
                    rs,
                    64 * k + c,
                ) as u16,
            forall|k: int, t: int|
                0 <= k < 4 && 0 <= t < rows@[k]@.len() && !(x <= t < x + i) ==> #[trigger] rows@[k]@[t]
                    == old_rows[k]@[t],
        decreases 64 - i,
    {
        let ghost ii = i as int;
        proof {
            lemma_split64(0, ii);
            lemma_split64(1, ii);
            lemma_split64(2, ii);
            lemma_split64(3, ii);
            lemma_split64(0, ii + 1);
            lemma_split64(1, ii + 1);
            lemma_split64(2, ii + 1);
            lemma_split64(3, ii + 1);
            assert((ii + 1) / 2 == ii / 2);
            assert((ii + 1) % 2 == 1);
        }
        let h = i / 2;
        let v = p0[h];
        if v > u16::MAX - r[0] {
            assert(tile_sum(ps, rs, 64 * 0 + ii) > u16::MAX);
            return false;
        }
        rows[0][x + i] = v + r[0];
        let v = p1[h];
        if v > u16::MAX - r[1] {
            assert(tile_sum(ps, rs, 64 * 0 + ii + 1) > u16::MAX);
            return false;
        }
        rows[0][x + i + 1] = v + r[1];
        let v = p2[h];
        if v > u16::MAX - r[2] {
            assert(tile_sum(ps, rs, 64 * 1 + ii) > u16::MAX);
            return false;
        }
        rows[1][x + i] = v + r[2];
        let v = p3[h];
        if v > u16::MAX - r[3] {
            assert(tile_sum(ps, rs, 64 * 1 + ii + 1) > u16::MAX);
            return false;
        }
        rows[1][x + i + 1] = v + r[3];
        let v = p0[ENCODING_BLOCK / 2 + h];
        if v > u16::MAX - r[0] {
            assert(tile_sum(ps, rs, 64 * 2 + ii) > u16::MAX);
            return false;
        }
        rows[2][x + i] = v + r[0];
        let v = p1[ENCODING_BLOCK / 2 + h];
        if v > u16::MAX - r[1] {
            assert(tile_sum(ps, rs, 64 * 2 + ii + 1) > u16::MAX);
            return false;
        }
        rows[2][x + i + 1] = v + r[1];
        let v = p2[ENCODING_BLOCK / 2 + h];
        if v > u16::MAX - r[2] {
            assert(tile_sum(ps, rs, 64 * 3 + ii) > u16::MAX);
            return false;
        }
        rows[3][x + i] = v + r[2];
        let v = p3[ENCODING_BLOCK / 2 + h];
        if v > u16::MAX - r[3] {
            assert(tile_sum(ps, rs, 64 * 3 + ii + 1) > u16::MAX);
            return false;
        }
        rows[3][x + i + 1] = v + r[3];
        i = i + 2;
    }
    proof {
        let tile = Seq::new(256, |k: int| tile_sum(ps, rs, k) as u16);
        assert forall|k: int| 0 <= k < 256 implies #[trigger] tile_sum(ps, rs, k) <= u16::MAX by {
            let kk = k / 64;
            let c = k % 64;
            assert(k == 64 * kk + c);
        }
        assert forall|k: int| 0 <= k < 4 implies (#[trigger] rows@[k])@ =~= put_tile_row(
            old_rows[k]@,
            x as int,
            tile,
            k,
        ) by {
            assert forall|t: int| x <= t < x + 64 implies rows@[k]@[t] == tile[64 * k + t - x] by {
                assert(rows@[k]@[x + (t - x)] == tile_sum(ps, rs, 64 * k + (t - x)) as u16);
            }
        }
    }
    true
}

#[verifier::rlimit(50)]
/// Decodes the tile of the four blocks with widths and references at
/// `meta_idx` of the tables, from `offset`, into columns `x .. x + 64` of
/// the four rows.  Returns the offset after it, an error, or `None` where
/// decoding breaks down.
fn decode_tile(
    input: &[u8],
    offset: usize,
    bits: &Vec<u16>,
    refs: &Vec<u16>,
    meta_idx: usize,
    rows: &mut [Vec<u16>; 4],
    x: usize,
) -> (r: Option<Result<usize>>)
    requires
        input@.len() <= isize::MAX,
        offset <= input@.len(),
        meta_idx + 4 <= bits.len(),
        meta_idx + 4 <= refs.len(),
        x <= usize::MAX - 64,
        forall|k: int| 0 <= k < 4 ==> x + 64 <= (#[trigger] old(rows)@[k])@.len(),
    ensures
        forall|k: int| 0 <= k < 4 ==> (#[trigger] final(rows)@[k])@.len() == old(rows)@[k]@.len(),
        match raw_tile(
            input@,
            offset as int,
            bits@.subrange(meta_idx as int, meta_idx + 4),
            refs@.subrange(meta_idx as int, meta_idx + 4),
        ) {
            None => r is None,
            Some(Err(e)) => r == Some(Err::<usize, McRawError>(e)),
            Some(Ok((tile, o))) => r == Some(Ok::<usize, McRawError>(o as usize)) && forall|k: int|
                0 <= k < 4 ==> (#[trigger] final(rows)@[k])@ == put_tile_row(
                    old(rows)@[k]@,
                    x as int,
                    tile,
                    k,
                ),
        },
{
    let ghost inp = input@;
    let ghost bs = bits@.subrange(meta_idx as int, meta_idx + 4);
    let ghost rs = refs@.subrange(meta_idx as int, meta_idx + 4);
    let b = [bits[meta_idx], bits[meta_idx + 1], bits[meta_idx + 2], bits[meta_idx + 3]];
    let r = [refs[meta_idx], refs[meta_idx + 1], refs[meta_idx + 2], refs[meta_idx + 3]];
    assert(b@ =~= bs);
    assert(r@ =~= rs);
    let len = input.len();
    let mut p0 = [0u16; ENCODING_BLOCK];
    let mut p1 = [0u16; ENCODING_BLOCK];
    let mut p2 = [0u16; ENCODING_BLOCK];
    let mut p3 = [0u16; ENCODING_BLOCK];
    let ghost zeros = Seq::new(64, |k: int| 0u16);
    assert(p0@ =~= zeros);
    let mut offset = offset;
    let ghost o0 = offset as int;
    match decode_block(&mut p0, 0, b[0], input, offset, len) {
        Ok(c) => {
            proof { lemma_block_buffer(p0@, inp, offset as int, b[0]); }
            offset += c;
        },
        Err(e) => {
            return Some(Err(e));
        },
    }
    let ghost o1 = offset as int;
    assert(p1@ =~= zeros);
    match decode_block(&mut p1, 0, b[1], input, offset, len) {
        Ok(c) => {
            proof { lemma_block_buffer(p1@, inp, offset as int, b[1]); }
            offset += c;
        },
        Err(e) => {
            return Some(Err(e));
        },
    }
    let ghost o2 = offset as int;
    assert(p2@ =~= zeros);
    match decode_block(&mut p2, 0, b[2], input, offset, len) {
        Ok(c) => {
            proof { lemma_block_buffer(p2@, inp, offset as int, b[2]); }
            offset += c;
        },
        Err(e) => {
            return Some(Err(e));
        },
    }
    let ghost o3 = offset as int;
    assert(p3@ =~= zeros);
    match decode_block(&mut p3, 0, b[3], input, offset, len) {
        Ok(c) => {
            proof { lemma_block_buffer(p3@, inp, offset as int, b[3]); }
            offset += c;
        },
        Err(e) => {
            return Some(Err(e));
        },
    }
    let ghost ps = four(p0@, p1@, p2@, p3@);
    assert(block_step(inp, o0, bs[0]) == Ok::<(Seq<u16>, int), McRawError>((ps[0], o1)));
    assert(block_step(inp, o1, bs[1]) == Ok::<(Seq<u16>, int), McRawError>((ps[1], o2)));
    assert(block_step(inp, o2, bs[2]) == Ok::<(Seq<u16>, int), McRawError>((ps[2], o3)));
    assert(block_step(inp, o3, bs[3]) == Ok::<(Seq<u16>, int), McRawError>((ps[3], offset as int)));
    if !fill_tile(rows, x, &p0, &p1, &p2, &p3, &r) {
        return None;
    }
    Some(Ok(offset))
}

/// Copies the first `width` samples of `row` to `output[out_idx ..]`.
fn copy_row(output: &mut [u16], out_idx: usize, row: &Vec<u16>, width: usize)
    requires
        width <= row@.len(),
        out_idx + width <= old(output)@.len(),
    ensures
        final(output)@ == Seq::new(
            old(output)@.len(),
            |p: int|
                if out_idx <= p < out_idx + width {
                    row@[p - out_idx]
                } else {
                    old(output)@[p]
                },
        ),
{
    let ghost before = output@;
    let mut j: usize = 0;
    while j < width
        invariant
            j <= width,
            width <= row@.len(),
            out_idx + width <= output.len(),
            output@.len() == before.len(),
            forall|p: int|
                0 <= p < output@.len() ==> #[trigger] output@[p] == if out_idx <= p < out_idx + j {
                    row@[p - out_idx]
                } else {
                    before[p]
                },
        decreases width - j,
    {
        output[out_idx + j] = row[j];
        j = j + 1;
    }
    assert(output@ =~= Seq::new(
        before.len(),
        |p: int|
            if out_idx <= p < out_idx + width {
                row@[p - out_idx]
            } else {
                before[p]
            },
    ));
}

/// Row `k` of a group: the `k`-th row of each of its tiles, side by side.
pub open spec fn group_row(tiles: Seq<Seq<u16>>, k: int, c: int) -> u16 {
    tiles[c / 64][64 * k + c % 64]
}

proof fn lemma_row_split(width: int, k: int, c: int)
    requires
        0 < width,
        0 <= k,
        0 <= c < width,
    ensures
        (k * width + c) / width == k,
        (k * width + c) % width == c,
{
    vstd::arithmetic::div_mod::lemma_fundamental_div_mod_converse(k * width + c, width, k, c);
}

/// Decodes the tiles of one group of four rows, with their widths and
/// references from `meta_idx` of the tables, from `offset`, into the four
/// rows.  Returns the offset and the table index after them, an error, or
/// `None` where decoding breaks down.
fn decode_group(
    input: &[u8],
    start: usize,
    bits: &Vec<u16>,
    refs: &Vec<u16>,
    meta_start: usize,
    rows: &mut [Vec<u16>; 4],
    ntiles: usize,
) -> (r: Option<Result<(usize, usize)>>)
    requires
        input@.len() <= isize::MAX,
        start <= input@.len(),
        meta_start <= bits@.len(),
        64 * ntiles <= u32::MAX,
        forall|k: int| 0 <= k < 4 ==> (#[trigger] old(rows)@[k])@.len() == 64 * ntiles,
    ensures
        forall|k: int| 0 <= k < 4 ==> (#[trigger] final(rows)@[k])@.len() == 64 * ntiles,
        r matches Some(Ok((o, m))) ==> o <= input@.len() && m <= bits@.len() && (raw_group(
            input@,
            start as int,
            bits@,
            refs@,
            meta_start as int,
            0,
            ntiles as nat,
            Seq::empty(),
        ) matches Some(Ok((tiles, o2, m2))) && o2 == o && m2 == m),
        match raw_group(input@, start as int, bits@, refs@, meta_start as int, 0, ntiles as nat, Seq::empty()) {
            None => r is None,
            Some(Err(e)) => r == Some(Err::<(usize, usize), McRawError>(e)),
            Some(Ok((tiles, o, m))) => r == Some(Ok::<(usize, usize), McRawError>((o as usize, m as usize)))
                && o <= input@.len() && m <= bits@.len()
                && forall|k: int, c: int|
                0 <= k < 4 && 0 <= c < 64 * ntiles ==> #[trigger] final(rows)@[k]@[c] == group_row(tiles, k, c),
        },
{
    let ghost inp = input@;
    let ghost off_g = start as int;
    let ghost meta_g = meta_start as int;
    let ghost mut acc: Seq<Seq<u16>> = Seq::empty();
    let mut offset = start;
    let mut meta_idx = meta_start;
    let mut t: usize = 0;
    while t < ntiles
        invariant
            inp == input@,
            off_g == start,
            meta_g == meta_start,
            inp.len() <= isize::MAX,
            offset <= inp.len(),
            meta_idx <= bits@.len(),
            t <= ntiles,
            64 * ntiles <= u32::MAX,
            acc.len() == t,
            forall|k: int| 0 <= k < 4 ==> (#[trigger] rows@[k])@.len() == 64 * ntiles,
            forall|k: int, c: int|
                0 <= k < 4 && 0 <= c < 64 * t ==> #[trigger] rows@[k]@[c] == group_row(acc, k, c),
            raw_group(inp, offset as int, bits@, refs@, meta_idx as int, t as nat, ntiles as nat, acc)
                == raw_group(inp, off_g, bits@, refs@, meta_g, 0, ntiles as nat, Seq::empty()),
        decreases ntiles - t,
    {
        if bits.len() < 4 || refs.len() < 4 || meta_idx > bits.len() - 4 || meta_idx > refs.len() - 4 {
            return None;
        }
        let x = ENCODING_BLOCK * t;
        let ghost before = rows@;
        let ghost off_t = offset as int;
        let ghost bs = bits@.subrange(meta_idx as int, meta_idx + 4);
        let ghost rs = refs@.subrange(meta_idx as int, meta_idx + 4);
        match decode_tile(input, offset, bits, refs, meta_idx, rows, x) {
            None => {
                return None;
            },
            Some(Err(e)) => {
                return Some(Err(e));
            },
            Some(Ok(o)) => {
                offset = o;
            },
        }
        proof {
            let tile = raw_tile(inp, off_t, bs, rs).unwrap().unwrap().0;
            let old_acc = acc;
            acc = acc.push(tile);
            assert forall|k: int, c: int|
                0 <= k < 4 && 0 <= c < 64 * (t + 1) implies #[trigger] rows@[k]@[c] == group_row(
                acc,
                k,
                c,
            ) by {
                if c < 64 * t {
                    lemma_split64(c / 64, c % 64);
                    assert(before[k]@[c] == group_row(old_acc, k, c));
                } else {
                    lemma_split64(t as int, c - 64 * t);
                }
            }
        }
        meta_idx = meta_idx + 4;
        t = t + 1;
    }
    Some(Ok((offset, meta_idx)))
}

/// Decodes a type 7 frame into `output` like `decode`, and returns `None`
/// on exactly the inputs on which decoding breaks down.
pub fn decode_checked(output: &mut [u16], width: usize, _height: usize, input: &[u8]) -> (r: Option<
    Result<usize>,
>)
    requires
        input@.len() <= isize::MAX,
    ensures
        r matches Some(Ok(n)) ==> n == 4 * width * ((le_u32(input@, 4) + 3) / 4),
        match raw_frame(input@, width as nat, old(output)@) {
            None => r is None,
            Some((st, out)) => final(output)@ == out && match st {
                RawStatus::Decoded(n) => r == Some(Ok::<usize, McRawError>(n as usize)),
                RawStatus::Failed(e) => r == Some(Err::<usize, McRawError>(e)),
                RawStatus::BadHeader => r matches Some(Err(McRawError::DecompressionFailed(s))) && s@
                    == "invalid raw header"@,
            },
        },
{
    let ghost inp = input@;
    let ghost out0 = output@;
    proof {
        lemma_raw_frame_written(inp, width as nat, out0);
    }
    if input.len() < METADATA_OFFSET {
        return Some(Err(McRawError::TruncatedData));
    }
    let enc_w = match read_le_bytes::<4>(input, 0) {
        Ok(a) => u32_from_le_bytes(a) as usize,
        Err(e) => {
            return Some(Err(e));
        },
    };
    let enc_h = match read_le_bytes::<4>(input, 4) {
        Ok(a) => u32_from_le_bytes(a) as usize,
        Err(e) => {
            return Some(Err(e));
        },
    };
    let bits_off = match read_le_bytes::<4>(input, 8) {
        Ok(a) => u32_from_le_bytes(a) as usize,
        Err(e) => {
            return Some(Err(e));
        },
    };
    let refs_off = match read_le_bytes::<4>(input, 12) {
        Ok(a) => u32_from_le_bytes(a) as usize,
        Err(e) => {
            return Some(Err(e));
        },
    };
    assert(enc_w == le_u32(inp, 0));
    assert(enc_h == le_u32(inp, 4));
    assert(bits_off == le_u32(inp, 8));
    assert(refs_off == le_u32(inp, 12));
    if bits_off > input.len() || refs_off > input.len() || enc_w % ENCODING_BLOCK != 0 || enc_w
        < width {
        return Some(Err(McRawError::DecompressionFailed("invalid raw header".to_owned())));
    }
    let mut bits: Vec<u16> = Vec::new();
    let mut refs: Vec<u16> = Vec::new();
    match decode_metadata(input, bits_off, input.len(), &mut bits) {
        None => {
            return None;
        },
        Some(Err(e)) => {
            return Some(Err(e));
        },
        Some(Ok(_)) => {},
    }
    match decode_metadata(input, refs_off, input.len(), &mut refs) {
        None => {
            return None;
        },
        Some(Err(e)) => {
            return Some(Err(e));
        },
        Some(Ok(_)) => {},
    }
    let ngroups = enc_h / 4 + if enc_h % 4 != 0 {
        1
    } else {
        0
    };
    assert(ngroups == (enc_h + 3) / 4);
    let ntiles = enc_w / ENCODING_BLOCK;
    assert(64 * ntiles == enc_w);
    let ghost full = raw_groups(
        inp,
        width as int,
        enc_w as int,
        bits@,
        refs@,
        16,
        0,
        out0,
        0,
        0,
        ngroups as nat,
    );
    assert(raw_frame(inp, width as nat, out0) == match full {
        None => None,
        Some((Ok(n), o)) => Some((RawStatus::Decoded(n), o)),
        Some((Err(e), o)) => Some((RawStatus::Failed(e), o)),
    });
    let mut offset: usize = METADATA_OFFSET;
    let mut meta_idx: usize = 0;
    let mut out_idx: usize = 0;
    let mut rows = [vec![0u16; enc_w], vec![0u16; enc_w], vec![0u16; enc_w], vec![0u16; enc_w]];
    let mut g: usize = 0;
    while g < ngroups
        invariant
            inp == input@,
            out0 == old(output)@,
            inp.len() <= isize::MAX,
            raw_frame(inp, width as nat, out0) == match full {
                None => None,
                Some((Ok(n), o)) => Some((RawStatus::Decoded(n), o)),
                Some((Err(e), o)) => Some((RawStatus::Failed(e), o)),
            },
            offset <= inp.len(),
            meta_idx <= bits@.len(),
            g <= ngroups,
            64 * ntiles == enc_w,
            enc_w <= u32::MAX,
            width <= enc_w,
            out_idx <= output@.len(),
            output@.len() == out0.len(),
            forall|k: int| 0 <= k < 4 ==> (#[trigger] rows@[k])@.len() == enc_w,
            raw_groups(
                inp,
                width as int,
                enc_w as int,
                bits@,
                refs@,
                offset as int,
                meta_idx as int,
                output@,
                out_idx as int,
                g as nat,
                ngroups as nat,
            ) == full,
        decreases ngroups - g,
    {
        let ghost off_g = offset as int;
        let ghost meta_g = meta_idx as int;
        let ghost gr = raw_group(inp, off_g, bits@, refs@, meta_g, 0, ntiles as nat, Seq::empty());
        match decode_group(input, offset, &bits, &refs, meta_idx, &mut rows, ntiles) {
            None => {
                return None;
            },
            Some(Err(e)) => {
                return Some(Err(e));
            },
            Some(Ok((o, m))) => {
                offset = o;
                meta_idx = m;
            },
        }
        let ghost acc = gr.unwrap().unwrap().0;
        if width > (output.len() - out_idx) / 4 {
            return None;
        }
        let ghost before = output@;
        proof {
            assert(enc_w as int / 64 == ntiles as int);
            assert(4 * ((output@.len() - out_idx) / 4) <= output@.len() - out_idx);
            assert(out_idx + 4 * width <= before.len());
            assert(gr == Some(Ok::<(Seq<Seq<u16>>, int, int), McRawError>((acc, offset as int, meta_idx as int))));
        }
        copy_row(output, out_idx, &rows[0], width);
        copy_row(output, out_idx + width, &rows[1], width);
        copy_row(output, out_idx + 2 * width, &rows[2], width);
        copy_row(output, out_idx + 3 * width, &rows[3], width);
        proof {
            let wg = write_group(before, out_idx as int, width as int, acc);
            assert forall|p: int| 0 <= p < output@.len() implies output@[p] == wg[p] by {
                let w = width as int;
                let d = p - out_idx;
                if out_idx <= p < out_idx + 4 * w {
                    if d < w {
                        lemma_row_split(w, 0, d);
                    } else if d < 2 * w {
                        lemma_row_split(w, 1, d - w);
                    } else if d < 3 * w {
                        lemma_row_split(w, 2, d - 2 * w);
                    } else {
                        lemma_row_split(w, 3, d - 3 * w);
                    }
                }
            }
            assert(output@ =~= wg);
        }
        out_idx = out_idx + 4 * width;
        g = g + 1;
    }
    Some(Ok(out_idx))
}

/// Decode a raw frame using compression type 7 (current).
///
/// Decodes the compressed `input` into `output` (row-major `u16` Bayer data)
/// and returns the number of `u16` samples written, as `raw_frame`
/// describes: four rows of `width` samples per group of four encoded rows.
pub fn decode(output: &mut [u16], width: usize, height: usize, input: &[u8]) -> (r: Result<usize>)
    requires
        input@.len() <= isize::MAX,
        raw_frame(input@, width as nat, old(output)@) is Some,
    ensures
        r matches Ok(n) ==> n == 4 * width * ((le_u32(input@, 4) + 3) / 4),
        raw_frame(input@, width as nat, old(output)@) matches Some((st, out)) && final(output)@ == out
            && match st {
            RawStatus::Decoded(n) => r == Ok::<usize, McRawError>(n as usize),
            RawStatus::Failed(e) => r == Err::<usize, McRawError>(e),
            RawStatus::BadHeader => r matches Err(McRawError::DecompressionFailed(s)) && s@
                == "invalid raw header"@,
        },
{
    match decode_checked(output, width, height, input) {
        Some(r) => r,
        None => {
            proof {
                assert(false);
            }
            Ok(0)
        },
    }
}

} // verus!
