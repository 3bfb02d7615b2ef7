use crate::error::{McRawError, Result};
use vstd::prelude::*;
use wide::u16x8;

verus! {

/// Bit width stored in a block header: the high nibble of its first byte.
pub open spec fn header_bits(b0: u8) -> u8 {
    (b0 / 16) as u8
}

/// Reference value stored in a block header: the low nibble of the first
/// byte followed by the whole second byte (12 bits, big-endian).
pub open spec fn header_reference(b0: u8, b1: u8) -> u16 {
    ((b0 % 16) * 256 + b1) as u16
}

pub proof fn lemma_header_bounds(b0: u8, b1: u8)
    ensures
        header_bits(b0) < 16,
        header_reference(b0, b1) < 4096,
{
}

/// Computes the header fields from two bytes.
pub fn header_of(b0: u8, b1: u8) -> (r: (u8, u16))
    ensures
        r == (header_bits(b0), header_reference(b0, b1)),
{
    let bits = (b0 >> 4) & 0x0F;
    let reference = ((b0 & 0x0F) as u16) << 8 | b1 as u16;
    assert((b0 >> 4) & 0x0F == b0 / 16) by (bit_vector);
    assert(((b0 & 0x0F) as u16) << 8 | b1 as u16 == (b0 % 16) * 256 + b1) by (bit_vector);
    (bits, reference)
}

/// Decodes a block header: the bit width and the reference value.
///
/// Fails with `TruncatedData` exactly when `input` holds fewer than two bytes.
pub fn decode_header(input: &[u8]) -> (r: Result<(u8, u16)>)
    ensures
        input@.len() >= 2 ==> r == Ok::<(u8, u16), McRawError>(
            (header_bits(input@[0]), header_reference(input@[0], input@[1])),
        ),
        input@.len() < 2 ==> r matches Err(McRawError::TruncatedData),
{
    if input.len() < 2 {
        return Err(McRawError::TruncatedData);
    }
    Ok(header_of(input[0], input[1]))
}

#[verifier::external_type_specification]
#[verifier::external_body]
pub struct ExU16x8(wide::u16x8);

/// The eight lanes of a `u16x8` vector, lane 0 first.
pub uninterp spec fn u16x8_lanes(v: u16x8) -> Seq<u16>;

/// The vector whose lane `i` is `f(i)`.
pub open spec fn lanes_of(f: spec_fn(int) -> u16) -> Seq<u16> {
    Seq::new(8, f)
}

/// `wide`'s `From<[u16; 8]>` for `u16x8`: the array's elements become the
/// lanes, in order.
#[verifier::external_body]
pub(crate) fn u16x8_from_array(a: [u16; 8]) -> (r: u16x8)
    ensures
        u16x8_lanes(r) == a@,
{
    u16x8::from(a)
}

/// `wide`'s `From<u16x8>` for `[u16; 8]`: the lanes, in order.
#[verifier::external_body]
fn u16x8_to_array(v: u16x8) -> (r: [u16; 8])
    ensures
        r@ == u16x8_lanes(v),
{
    v.into()
}

/// `wide::u16x8::splat`: every lane holds `x`.
#[verifier::external_body]
pub(crate) fn u16x8_splat(x: u16) -> (r: u16x8)
    ensures
        u16x8_lanes(r) == lanes_of(|i: int| x),
{
    u16x8::splat(x)
}

/// `wide`'s `BitAnd` for `u16x8`: lane-wise `&`.
#[verifier::external_body]
pub(crate) fn u16x8_and(a: u16x8, b: u16x8) -> (r: u16x8)
    ensures
        u16x8_lanes(r) == lanes_of(|i: int| u16x8_lanes(a)[i] & u16x8_lanes(b)[i]),
{
    a & b
}

/// `wide`'s `BitOr` for `u16x8`: lane-wise `|`.
#[verifier::external_body]
pub(crate) fn u16x8_or(a: u16x8, b: u16x8) -> (r: u16x8)
    ensures
        u16x8_lanes(r) == lanes_of(|i: int| u16x8_lanes(a)[i] | u16x8_lanes(b)[i]),
{
    a | b
}

/// `wide`'s `Shl<u32>` for `u16x8`: each lane shifted left by `s` modulo
/// 16, bits past the lane dropped.
#[verifier::external_body]
pub(crate) fn u16x8_shl(a: u16x8, s: u32) -> (r: u16x8)
    ensures
        u16x8_lanes(r) == lanes_of(|i: int| u16x8_lanes(a)[i] << (s % 16)),
{
    a << s
}

/// `wide`'s `Shr<u32>` for `u16x8`: each lane shifted right by `s` modulo 16.
#[verifier::external_body]
pub(crate) fn u16x8_shr(a: u16x8, s: u32) -> (r: u16x8)
    ensures
        u16x8_lanes(r) == lanes_of(|i: int| u16x8_lanes(a)[i] >> (s % 16)),
{
    a >> s
}

/// Loads the first eight bytes of `src`, each widened to a 16-bit lane.
///
/// Fails with `TruncatedData` exactly when `src` holds fewer than 8 bytes.
pub fn load_u8_to_u16x8(src: &[u8]) -> (r: Result<u16x8>)
    ensures
        src@.len() >= 8 ==> (r matches Ok(v) && u16x8_lanes(v) == lanes_of(|i: int| src@[i] as u16)),
        src@.len() < 8 ==> r matches Err(McRawError::TruncatedData),
{
    if src.len() < 8 {
        return Err(McRawError::TruncatedData);
    }
    let chunk = [
        src[0] as u16,
        src[1] as u16,
        src[2] as u16,
        src[3] as u16,
        src[4] as u16,
        src[5] as u16,
        src[6] as u16,
        src[7] as u16,
    ];
    let v = u16x8_from_array(chunk);
    assert(u16x8_lanes(v) =~= lanes_of(|i: int| src@[i] as u16));
    Ok(v)
}

/// Stores the eight lanes of `val` into `dst[pos..pos + 8]`.
///
/// Fails with `TruncatedData`, leaving `dst` unchanged, exactly when fewer
/// than 8 elements follow `pos`.
pub fn store_u16x8(dst: &mut [u16], pos: usize, val: u16x8) -> (r: Result<()>)
    requires
        pos <= old(dst)@.len(),
    ensures
        final(dst)@.len() == old(dst)@.len(),
        pos + 8 <= old(dst)@.len() ==> r is Ok && final(dst)@ == old(dst)@.subrange(0, pos as int)
            + u16x8_lanes(val) + old(dst)@.subrange(pos + 8, old(dst)@.len() as int),
        pos + 8 > old(dst)@.len() ==> (r matches Err(McRawError::TruncatedData) && final(dst)@
            == old(dst)@),
{
    let arr: [u16; 8] = u16x8_to_array(val);
    if dst.len() - pos < 8 {
        return Err(McRawError::TruncatedData);
    }
    let ghost prev = dst@;
    let mut k: usize = 0;
    while k < 8
        invariant
            k <= 8,
            pos + 8 <= dst.len(),
            dst@.len() == prev.len(),
            arr@ == u16x8_lanes(val),
            forall|t: int|
                0 <= t < dst@.len() ==> #[trigger] dst@[t] == if pos <= t < pos + k {
                    arr@[t - pos]
                } else {
                    prev[t]
                },
        decreases 8 - k,
    {
        dst[pos + k] = arr[k];
        k = k + 1;
    }
    assert(dst@ =~= prev.subrange(0, pos as int) + u16x8_lanes(val) + prev.subrange(
        pos + 8,
        prev.len() as int,
    ));
    Ok(())
}

} // verus!
