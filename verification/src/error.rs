use vstd::prelude::*;

verus! {


#[verifier::external_type_specification]
#[verifier::external_body]
pub struct ExIoError(std::io::Error);

#[verifier::external_type_specification]
#[verifier::external_body]
pub struct ExJsonError(serde_json::Error);

/// Errors that can occur during MCRAW decoding.
#[derive(Debug)]
pub enum McRawError {
    Io(std::io::Error),
    InvalidHeader,
    UnsupportedVersion(u8),
    InvalidItemType(u32),
    CorruptedIndex,
    FrameNotFound(i64),
    InvalidCompressionType(i32),
    DecompressionFailed(String),
    MetadataParse(serde_json::Error),
    TruncatedData,
}

/// Convenience alias for `Result<T, McRawError>`.
pub type Result<T> = std::result::Result<T, McRawError>;

/// Read `N` bytes from `data` starting at `start`.
///
/// Fails with `TruncatedData` exactly when fewer than `N` bytes follow `start`.
pub fn read_le_bytes<const N: usize>(data: &[u8], start: usize) -> (r: Result<[u8; N]>)
    requires
        start + N <= usize::MAX,
    ensures
        start + N <= data@.len() ==> (r matches Ok(a) && a@ == data@.subrange(start as int, start + N)),
        start + N > data@.len() ==> r matches Err(McRawError::TruncatedData),
{
    if start + N > data.len() {
        return Err(McRawError::TruncatedData);
    }
    let mut a = [0u8; N];
    let mut i: usize = 0;
    while i < N
        invariant
            i <= N,
            start + N <= data.len(),
            a@.len() == N,
            forall|k: int| 0 <= k < i ==> a@[k] == data@[start + k],
        decreases N - i,
    {
        a[i] = data[start + i];
        i = i + 1;
    }
    assert(a@ =~= data@.subrange(start as int, start + N));
    Ok(a)
}

/// The little-endian 32-bit number in `b[i .. i + 4]`.
pub open spec fn le_u32(b: Seq<u8>, i: int) -> u32 {
    (b[i] + 256 * b[i + 1] + 65536 * b[i + 2] + 16777216 * b[i + 3]) as u32
}

/// The little-endian 64-bit number in `b[i .. i + 8]`.
pub open spec fn le_u64(b: Seq<u8>, i: int) -> u64 {
    (le_u32(b, i) + 4294967296 * le_u32(b, i + 4)) as u64
}

/// `u32::from_le_bytes`.
pub fn u32_from_le_bytes(a: [u8; 4]) -> (r: u32)
    ensures
        r == le_u32(a@, 0),
{
    let (b0, b1, b2, b3) = (a[0], a[1], a[2], a[3]);
    assert((b0 as u32) | ((b1 as u32) << 8u32) | ((b2 as u32) << 16u32) | ((b3 as u32) << 24u32)
        == (b0 + 256 * b1 + 65536 * b2 + 16777216 * b3) as u32) by (bit_vector);
    (b0 as u32) | ((b1 as u32) << 8) | ((b2 as u32) << 16) | ((b3 as u32) << 24)
}

/// `i32::from_le_bytes`: the little-endian number read as two's complement.
pub fn i32_from_le_bytes(a: [u8; 4]) -> (r: i32)
    ensures
        r == le_u32(a@, 0) as i32,
{
    u32_from_le_bytes(a) as i32
}

/// `i64::from_le_bytes`: the little-endian number read as two's complement.
pub fn i64_from_le_bytes(a: [u8; 8]) -> (r: i64)
    ensures
        r == le_u64(a@, 0) as i64,
{
    let lo = u32_from_le_bytes([a[0], a[1], a[2], a[3]]) as u64;
    let hi = u32_from_le_bytes([a[4], a[5], a[6], a[7]]) as u64;
    assert(lo | (hi << 32u64) == (lo + 4294967296 * hi) as u64) by (bit_vector)
        requires
            lo <= 0xffff_ffff,
            hi <= 0xffff_ffff,
    ;
    (lo | (hi << 32)) as i64
}

} // verus!
