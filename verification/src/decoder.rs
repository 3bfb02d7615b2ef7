use crate::container::{
    item_type_result, AudioIndex, BufferIndex, BufferOffset, Item, ItemType,
    CONTAINER_ID, CONTAINER_VERSION, INDEX_MAGIC_NUMBER,
};
use crate::error::{
    i64_from_le_bytes, i32_from_le_bytes, le_u32, le_u64, read_le_bytes, u32_from_le_bytes,
    McRawError, Result,
};
use crate::raw::{decode_checked, lemma_raw_frame_written, raw_frame, RawStatus};
use crate::raw_legacy::{decode_legacy_checked, lemma_legacy_frame_len, legacy_frame};
use memmap2::Mmap;
use serde_json::Value;
use std::collections::HashMap;
use vstd::prelude::*;

verus! {

broadcast use vstd::std_specs::hash::group_hash_axioms;

#[verifier::external_type_specification]
#[verifier::external_body]
pub struct ExMmap(memmap2::Mmap);

#[verifier::external_type_specification]
#[verifier::external_body]
pub struct ExValue(serde_json::Value);

/// The bytes of a memory map.
pub uninterp spec fn mmap_bytes(m: Mmap) -> Seq<u8>;

/// `memmap2::Mmap`'s `Deref` to `[u8]`: the mapped bytes (a slice, so at
/// most `isize::MAX` of them).
#[verifier::external_body]
fn mapped(m: &Mmap) -> (r: &[u8])
    ensures
        r@ == mmap_bytes(*m),
        r@.len() <= isize::MAX,
{
    &m[..]
}

/// The fields of a JSON metadata object that decoding reads: the frame
/// size and compression type, and the audio parameters under `extraData`.
/// Each is `None` where the key is missing or not an integer that fits.
#[derive(Clone, Copy, Debug)]
pub struct MetadataFields {
    pub width: Option<u64>,
    pub height: Option<u64>,
    pub compression_type: Option<i64>,
    pub audio_sample_rate: Option<i64>,
    pub audio_channels: Option<i64>,
}

/// The JSON document that `bytes` hold, or `None` where they are not valid
/// JSON.
pub uninterp spec fn json_value(bytes: Seq<u8>) -> Option<Value>;

/// The member `key` of the JSON value `v`: `null` where `v` is not an
/// object or has no such member.
pub uninterp spec fn json_get(v: Value, key: Seq<char>) -> Value;

/// The JSON value `v` as a `u64`, where it is an integer that fits.
pub uninterp spec fn json_as_u64(v: Value) -> Option<u64>;

/// The JSON value `v` as an `i64`, where it is an integer that fits.
pub uninterp spec fn json_as_i64(v: Value) -> Option<i64>;

/// `serde_json::from_slice` into a `serde_json::Value`: the document the
/// bytes hold, and an error exactly where they are not valid JSON.  Its
/// result depends on the bytes alone.
#[verifier::external_body]
fn parse_json(bytes: &[u8]) -> (r: std::result::Result<Value, serde_json::Error>)
    ensures
        match json_value(bytes@) {
            Some(v) => r matches Ok(x) && x == v,
            None => r is Err,
        },
{
    serde_json::from_slice(bytes)
}

/// `serde_json::Value`'s `Index<&str>`: the member `key` of an object, or
/// the `null` value where `v` is not an object or lacks it (it does not
/// panic).
#[verifier::external_body]
fn json_member<'a>(v: &'a Value, key: &str) -> (r: &'a Value)
    ensures
        *r == json_get(*v, key@),
{
    &v[key]
}

/// `serde_json::Value::as_u64`.
#[verifier::external_body]
fn value_as_u64(v: &Value) -> (r: Option<u64>)
    ensures
        r == json_as_u64(*v),
{
    v.as_u64()
}

/// `serde_json::Value::as_i64`.
#[verifier::external_body]
fn value_as_i64(v: &Value) -> (r: Option<i64>)
    ensures
        r == json_as_i64(*v),
{
    v.as_i64()
}

/// The fields of the metadata document `v` that decoding reads:
/// `width` and `height` as `u64`, `compressionType` as `i64`, and under
/// `extraData` the `audioSampleRate` and `audioChannels` as `i64`.
pub open spec fn fields_of(v: Value) -> MetadataFields {
    MetadataFields {
        width: json_as_u64(json_get(v, "width"@)),
        height: json_as_u64(json_get(v, "height"@)),
        compression_type: json_as_i64(json_get(v, "compressionType"@)),
        audio_sample_rate: json_as_i64(json_get(json_get(v, "extraData"@), "audioSampleRate"@)),
        audio_channels: json_as_i64(json_get(json_get(v, "extraData"@), "audioChannels"@)),
    }
}

/// The fields that decoding reads from the JSON document in `bytes`, or
/// `None` where they are not valid JSON.
pub open spec fn json_fields(bytes: Seq<u8>) -> Option<MetadataFields> {
    match json_value(bytes) {
        Some(v) => Some(fields_of(v)),
        None => None,
    }
}

/// Reads the fields that decoding uses from the metadata document `v`.
pub fn metadata_fields(v: &Value) -> (f: MetadataFields)
    ensures
        f == fields_of(*v),
{
    let extra = json_member(v, "extraData");
    MetadataFields {
        width: value_as_u64(json_member(v, "width")),
        height: value_as_u64(json_member(v, "height")),
        compression_type: value_as_i64(json_member(v, "compressionType")),
        audio_sample_rate: value_as_i64(json_member(extra, "audioSampleRate")),
        audio_channels: value_as_i64(json_member(extra, "audioChannels")),
    }
}

/// How a decoding step fails, as the error it returns shows it.
pub enum Failure {
    /// This error.
    Error(McRawError),
    /// `DecompressionFailed` with this message.
    Message(Seq<char>),
    /// `MetadataParse`: a metadata item is not valid JSON.
    BadJson,
}

/// The error `e` is the failure `f`.
pub open spec fn reports(e: McRawError, f: Failure) -> bool {
    match f {
        Failure::Error(x) => e == x,
        Failure::Message(m) => e matches McRawError::DecompressionFailed(s) && s@ == m,
        Failure::BadJson => e is MetadataParse,
    }
}

/// The item header at byte `c` of `d`.
pub open spec fn item_at(d: Seq<u8>, c: int) -> Result<Item> {
    if c > d.len() || c + 8 > d.len() {
        Err(McRawError::TruncatedData)
    } else {
        match item_type_result(le_u32(d, c)) {
            Err(e) => Err(e),
            Ok(t) => Ok(Item { item_type: t, size: le_u32(d, c + 4) }),
        }
    }
}

/// The buffer offset entry at byte `c` of `d` (16 bytes).
pub open spec fn offset_at(d: Seq<u8>, c: int) -> BufferOffset {
    BufferOffset { offset: le_u64(d, c) as i64, timestamp: le_u64(d, c + 8) as i64 }
}

fn parse_item(data: &[u8]) -> (r: Result<Item>)
    ensures
        r == item_at(data@, 0),
{
    if data.len() < 8 {
        return Err(McRawError::TruncatedData);
    }
    let code = match read_le_bytes::<4>(data, 0) {
        Ok(a) => u32_from_le_bytes(a),
        Err(e) => {
            return Err(e);
        },
    };
    let size = match read_le_bytes::<4>(data, 4) {
        Ok(a) => u32_from_le_bytes(a),
        Err(e) => {
            return Err(e);
        },
    };
    let item_type = match ItemType::try_from(code) {
        Ok(t) => t,
        Err(e) => {
            return Err(e);
        },
    };
    Ok(Item { item_type, size })
}

fn parse_buffer_offset(data: &[u8]) -> (r: Result<BufferOffset>)
    ensures
        data@.len() >= 16 ==> r == Ok::<BufferOffset, McRawError>(offset_at(data@, 0)),
        data@.len() < 16 ==> r == Err::<BufferOffset, McRawError>(McRawError::TruncatedData),
{
    let offset = match read_le_bytes::<8>(data, 0) {
        Ok(a) => i64_from_le_bytes(a),
        Err(e) => {
            return Err(e);
        },
    };
    let timestamp = match read_le_bytes::<8>(data, 8) {
        Ok(a) => i64_from_le_bytes(a),
        Err(e) => {
            return Err(e);
        },
    };
    Ok(BufferOffset { offset, timestamp })
}

fn parse_buffer_index(data: &[u8]) -> (r: Result<BufferIndex>)
    ensures
        data@.len() >= 16 ==> r == Ok::<BufferIndex, McRawError>(
            BufferIndex {
                magic_number: le_u32(data@, 0),
                num_offsets: le_u32(data@, 4) as i32,
                index_data_offset: le_u64(data@, 8) as i64,
            },
        ),
        data@.len() < 16 ==> r == Err::<BufferIndex, McRawError>(McRawError::TruncatedData),
{
    let magic_number = match read_le_bytes::<4>(data, 0) {
        Ok(a) => u32_from_le_bytes(a),
        Err(e) => {
            return Err(e);
        },
    };
    let num_offsets = match read_le_bytes::<4>(data, 4) {
        Ok(a) => i32_from_le_bytes(a),
        Err(e) => {
            return Err(e);
        },
    };
    let index_data_offset = match read_le_bytes::<8>(data, 8) {
        Ok(a) => i64_from_le_bytes(a),
        Err(e) => {
            return Err(e);
        },
    };
    Ok(BufferIndex { magic_number, num_offsets, index_data_offset })
}

fn parse_audio_index(data: &[u8]) -> (r: Result<AudioIndex>)
    ensures
        data@.len() >= 16 ==> r == Ok::<AudioIndex, McRawError>(
            AudioIndex {
                num_offsets: le_u64(data@, 0) as i64,
                start_timestamp_ms: le_u64(data@, 8) as i64,
            },
        ),
        data@.len() < 16 ==> r == Err::<AudioIndex, McRawError>(McRawError::TruncatedData),
{
    let num_offsets = match read_le_bytes::<8>(data, 0) {
        Ok(a) => i64_from_le_bytes(a),
        Err(e) => {
            return Err(e);
        },
    };
    let start_timestamp_ms = match read_le_bytes::<8>(data, 8) {
        Ok(a) => i64_from_le_bytes(a),
        Err(e) => {
            return Err(e);
        },
    };
    Ok(AudioIndex { num_offsets, start_timestamp_ms })
}

/// `s` with `x` inserted after every entry whose timestamp is at most that
/// of `x` (and before the later ones).
pub open spec fn insert_by_timestamp(s: Seq<BufferOffset>, x: BufferOffset) -> Seq<BufferOffset>
    decreases s.len(),
{
    if s.len() == 0 {
        seq![x]
    } else if s.last().timestamp <= x.timestamp {
        s.push(x)
    } else {
        insert_by_timestamp(s.drop_last(), x).push(s.last())
    }
}

/// `s` sorted by timestamp, entries with equal timestamps kept in their
/// order in `s` (a stable sort).
pub open spec fn sort_by_timestamp(s: Seq<BufferOffset>) -> Seq<BufferOffset>
    decreases s.len(),
{
    if s.len() == 0 {
        s
    } else {
        insert_by_timestamp(sort_by_timestamp(s.drop_last()), s.last())
    }
}

/// `slice::sort_by_key` on the timestamp: a stable sort, which leaves
/// entries with equal timestamps in the order they had.
#[verifier::external_body]
fn sort_offsets(v: &mut Vec<BufferOffset>)
    ensures
        final(v)@ == sort_by_timestamp(old(v)@),
{
    v.sort_by_key(|b| b.timestamp);
}

/// Entries in increasing order of timestamp.
pub open spec fn sorted_by_timestamp(s: Seq<BufferOffset>) -> bool {
    forall|i: int, j: int| 0 <= i < j < s.len() ==> s[i].timestamp <= s[j].timestamp
}

/// Every entry of `insert_by_timestamp(s, x)` is `x` or an entry of `s`,
/// so a bound on the timestamps of both bounds it.
proof fn lemma_insert_bound(s: Seq<BufferOffset>, x: BufferOffset, b: i64)
    requires
        forall|i: int| 0 <= i < s.len() ==> s[i].timestamp <= b,
        x.timestamp <= b,
    ensures
        insert_by_timestamp(s, x).len() == s.len() + 1,
        forall|i: int|
            0 <= i < insert_by_timestamp(s, x).len() ==> insert_by_timestamp(s, x)[i].timestamp <= b,
    decreases s.len(),
{
    if s.len() > 0 && s.last().timestamp > x.timestamp {
        lemma_insert_bound(s.drop_last(), x, b);
    }
}

/// Inserting into a sorted sequence keeps it sorted and adds exactly `x`.
proof fn lemma_insert_sorted(s: Seq<BufferOffset>, x: BufferOffset)
    requires
        sorted_by_timestamp(s),
    ensures
        sorted_by_timestamp(insert_by_timestamp(s, x)),
        insert_by_timestamp(s, x).to_multiset() =~= s.to_multiset().insert(x),
        insert_by_timestamp(s, x).len() == s.len() + 1,
    decreases s.len(),
{
    broadcast use vstd::seq_lib::group_to_multiset_ensures;

    if s.len() == 0 {
        assert(seq![x] =~= Seq::<BufferOffset>::empty().push(x));
    } else if s.last().timestamp <= x.timestamp {
    } else {
        let t = s.drop_last();
        let l = s.last();
        lemma_insert_sorted(t, x);
        lemma_insert_bound(t, x, l.timestamp);
        assert(s =~= t.push(l));
        let r = insert_by_timestamp(t, x);
        assert(r.push(l).to_multiset() =~= r.to_multiset().insert(l));
        assert(t.push(l).to_multiset() =~= t.to_multiset().insert(l));
    }
}

/// The frame index sorted by timestamp is in increasing order of timestamp
/// and holds exactly the entries of the index, each as often.
pub proof fn lemma_sort_by_timestamp(s: Seq<BufferOffset>)
    ensures
        sorted_by_timestamp(sort_by_timestamp(s)),
        sort_by_timestamp(s).to_multiset() =~= s.to_multiset(),
        sort_by_timestamp(s).len() == s.len(),
    decreases s.len(),
{
    broadcast use vstd::seq_lib::group_to_multiset_ensures;

    if s.len() > 0 {
        let t = s.drop_last();
        lemma_sort_by_timestamp(t);
        lemma_insert_sorted(sort_by_timestamp(t), s.last());
        assert(s =~= t.push(s.last()));
    }
}

/// The map from each timestamp of `s` to the last entry of `s` with it.
pub open spec fn timestamp_map(s: Seq<BufferOffset>) -> Map<i64, BufferOffset>
    decreases s.len(),
{
    if s.len() == 0 {
        Map::empty()
    } else {
        timestamp_map(s.drop_last()).insert(s.last().timestamp, s.last())
    }
}

/// A timestamp has an entry in `timestamp_map(s)` exactly where some entry
/// of `s` has it, and the entry found has that timestamp.
pub proof fn lemma_timestamp_map(s: Seq<BufferOffset>, ts: i64)
    ensures
        timestamp_map(s).contains_key(ts) <==> exists|i: int| 0 <= i < s.len() && s[i].timestamp == ts,
        timestamp_map(s).contains_key(ts) ==> timestamp_map(s)[ts].timestamp == ts,
    decreases s.len(),
{
    if s.len() > 0 {
        let t = s.drop_last();
        lemma_timestamp_map(t, ts);
        if exists|i: int| 0 <= i < t.len() && t[i].timestamp == ts {
            let i = choose|i: int| 0 <= i < t.len() && t[i].timestamp == ts;
            assert(s[i] == t[i]);
        }
        if exists|i: int| 0 <= i < s.len() && s[i].timestamp == ts {
            let i = choose|i: int| 0 <= i < s.len() && s[i].timestamp == ts;
            if i < s.len() - 1 {
                assert(t[i] == s[i]);
            }
        }
    }
}

/// Entries `k .. n` of the frame index from byte `cur`, after those in
/// `acc`.
pub open spec fn index_entries(d: Seq<u8>, cur: int, k: nat, n: nat, acc: Seq<BufferOffset>) -> Result<
    Seq<BufferOffset>,
>
    decreases n - k,
{
    if k >= n {
        Ok(acc)
    } else if cur > d.len() || cur + 16 > d.len() {
        Err(McRawError::TruncatedData)
    } else {
        index_entries(d, cur + 16, k + 1, n, acc.push(offset_at(d, cur)))
    }
}

/// `remaining` audio offset entries from byte `cur`, after those in `acc`,
/// and the byte after them.
pub open spec fn audio_entries(d: Seq<u8>, cur: int, remaining: nat, acc: Seq<BufferOffset>) -> Result<
    (Seq<BufferOffset>, int),
>
    decreases remaining,
{
    if remaining == 0 {
        Ok((acc, cur))
    } else if cur > d.len() || cur + 16 > d.len() {
        Err(McRawError::TruncatedData)
    } else {
        audio_entries(d, cur + 16, (remaining - 1) as nat, acc.push(offset_at(d, cur)))
    }
}

/// Reading audio entries never moves the cursor back.
pub proof fn lemma_audio_entries_advance(d: Seq<u8>, cur: int, remaining: nat, acc: Seq<BufferOffset>)
    ensures
        audio_entries(d, cur, remaining, acc) matches Ok((_, c)) ==> c >= cur,
    decreases remaining,
{
    if remaining > 0 && !(cur > d.len() || cur + 16 > d.len()) {
        lemma_audio_entries_advance(d, cur + 16, (remaining - 1) as nat, acc.push(offset_at(d, cur)));
    }
}

/// Items a scan for audio steps over.
pub open spec fn skipped_item(t: ItemType) -> bool {
    t == ItemType::Buffer || t == ItemType::Metadata || t == ItemType::AudioData || t
        == ItemType::AudioDataMetadata
}

/// Scans the items from byte `cur` for audio indexes, collecting their
/// entries after those in `acc`: the entries, an error, or `None` where decoding breaks down.  The scan ends at the end of the data, at an
/// unknown item type, or at an index item.
pub open spec fn audio_scan(d: Seq<u8>, cur: int, acc: Seq<BufferOffset>) -> Option<
    Result<Seq<BufferOffset>>,
>
    decreases (if cur <= d.len() {
        d.len() - cur
    } else {
        0
    }),
{
    if cur + 8 > usize::MAX {
        None
    } else if cur + 8 > d.len() {
        Some(Ok(acc))
    } else {
        match item_at(d, cur) {
            Err(_) => Some(Ok(acc)),
            Ok(item) => {
                let c2 = cur + 8;
                if skipped_item(item.item_type) {
                    if c2 + item.size > usize::MAX {
                        None
                    } else {
                        audio_scan(d, c2 + item.size, acc)
                    }
                } else if item.item_type == ItemType::AudioIndex {
                    if c2 + 16 > d.len() {
                        Some(Err(McRawError::TruncatedData))
                    } else {
                        let num = le_u64(d, c2) as i64;
                        if num < 0 || (acc.len() + num as usize) * 16 > isize::MAX {
                            None
                        } else {
                            match audio_entries(d, c2 + 16, num as nat, acc) {
                                Err(e) => Some(Err(e)),
                                Ok((acc2, c3)) => {
                                    proof {
                                        lemma_audio_entries_advance(d, c2 + 16, num as nat, acc);
                                    }
                                    audio_scan(d, c3, acc2)
                                },
                            }
                        }
                    }
                } else {
                    Some(Ok(acc))
                }
            },
        }
    }
}

/// What an MCRAW container holds: its metadata document and the fields
/// read from it, its frame index in file order, and its audio chunk
/// offsets.
pub struct ContainerIndex {
    pub metadata: Value,
    pub fields: MetadataFields,
    pub frames: Seq<BufferOffset>,
    pub audio: Seq<BufferOffset>,
}

/// How opening a container ends.
pub enum ContainerStatus {
    Parsed(ContainerIndex),
    Failed(Failure),
}

/// Opening the MCRAW container `d`, or `None` where decoding breaks down.
///
/// The container starts with `"MOTION "` and the version byte, then a
/// metadata item holding JSON; it ends with a frame index item (24 bytes:
/// an item header, the magic number, the entry count and the offset of the
/// entries, 16 bytes each).  Audio indexes are found by scanning the items
/// that follow the frame with the latest timestamp.
pub open spec fn container_parse(d: Seq<u8>) -> Option<ContainerStatus> {
    if d.len() < 8 || d.subrange(0, 7) != CONTAINER_ID@ {
        Some(ContainerStatus::Failed(Failure::Error(McRawError::InvalidHeader)))
    } else if d[7] != CONTAINER_VERSION {
        Some(ContainerStatus::Failed(Failure::Error(McRawError::UnsupportedVersion(d[7]))))
    } else {
        match item_at(d, 8) {
            Err(e) => Some(ContainerStatus::Failed(Failure::Error(e))),
            Ok(mi) => if mi.item_type != ItemType::Metadata {
                Some(
                    ContainerStatus::Failed(
                        Failure::Error(McRawError::InvalidItemType(mi.item_type.code())),
                    ),
                )
            } else if 16 + mi.size > usize::MAX {
                None
            } else if 16 + mi.size > d.len() {
                Some(ContainerStatus::Failed(Failure::Error(McRawError::TruncatedData)))
            } else {
                match json_value(d.subrange(16, 16 + mi.size)) {
                    None => Some(ContainerStatus::Failed(Failure::BadJson)),
                    Some(v) => container_index(d, v),
                }
            },
        }
    }
}

/// The frame index (in file order) and audio chunk offsets of the
/// container `d`, read from the index item at its end; `None` where decoding breaks down.
pub open spec fn index_parse(d: Seq<u8>) -> Option<Result<(Seq<BufferOffset>, Seq<BufferOffset>)>> {
    if d.len() < 24 {
        Some(Err(McRawError::TruncatedData))
    } else {
        let end = d.len() - 24;
        match item_at(d, end) {
            Err(e) => Some(Err(e)),
            Ok(ii) => if ii.item_type != ItemType::BufferIndex {
                Some(Err(McRawError::InvalidItemType(ii.item_type.code())))
            } else if le_u32(d, end + 8) != INDEX_MAGIC_NUMBER {
                Some(Err(McRawError::CorruptedIndex))
            } else if (le_u32(d, end + 12) as i32) < 0 || (le_u32(d, end + 12) as i32) * 16
                > isize::MAX {
                None
            } else {
                let n = (le_u32(d, end + 12) as i32) as nat;
                let start = (le_u64(d, end + 16) as i64) as usize;
                match index_entries(d, start as int, 0, n, Seq::empty()) {
                    Err(e) => Some(Err(e)),
                    Ok(frames) => {
                        let sorted = sort_by_timestamp(frames);
                        let audio = if sorted.len() == 0 {
                            Some(Ok(Seq::empty()))
                        } else {
                            audio_scan(d, (sorted.last().offset as usize) as int, Seq::empty())
                        };
                        match audio {
                            None => None,
                            Some(Err(e)) => Some(Err(e)),
                            Some(Ok(a)) => Some(Ok((frames, a))),
                        }
                    },
                }
            },
        }
    }
}

/// The container `d` once its metadata is read.
pub open spec fn container_index(d: Seq<u8>, metadata: Value) -> Option<ContainerStatus> {
    match index_parse(d) {
        None => None,
        Some(Err(e)) => Some(ContainerStatus::Failed(Failure::Error(e))),
        Some(Ok((frames, audio))) => Some(
            ContainerStatus::Parsed(
                ContainerIndex { metadata, fields: fields_of(metadata), frames, audio },
            ),
        ),
    }
}

/// Reads the `n` entries of the frame index from byte `start`.
fn read_frame_index(data: &[u8], start: usize, n: usize) -> (r: Result<Vec<BufferOffset>>)
    ensures
        match index_entries(data@, start as int, 0, n as nat, Seq::empty()) {
            Ok(frames) => r matches Ok(v) && v@ == frames,
            Err(e) => r == Err::<Vec<BufferOffset>, McRawError>(e),
        },
{
    let mut frame_offsets = vec![BufferOffset { offset: 0, timestamp: 0 }; n];
    let ghost full = index_entries(data@, start as int, 0, n as nat, Seq::empty());
    let mut off_cursor = start;
    let mut k: usize = 0;
    assert(frame_offsets@.subrange(0, 0) =~= Seq::<BufferOffset>::empty());
    while k < n
        invariant
            k <= n,
            frame_offsets@.len() == n,
            full == index_entries(data@, start as int, 0, n as nat, Seq::empty()),
            index_entries(data@, off_cursor as int, k as nat, n as nat, frame_offsets@.subrange(0, k as int))
                == full,
        decreases n - k,
    {
        let ghost prev = frame_offsets@.subrange(0, k as int);
        let ghost rest = index_entries(data@, off_cursor as int, k as nat, n as nat, prev);
        if off_cursor > data.len() || data.len() - off_cursor < 16 {
            assert(rest == Err::<Seq<BufferOffset>, McRawError>(McRawError::TruncatedData));
            return Err(McRawError::TruncatedData);
        }
        let bo = match parse_buffer_offset(&data[off_cursor..data.len()]) {
            Ok(bo) => bo,
            Err(e) => {
                return Err(e);
            },
        };
        assert(data@.subrange(off_cursor as int, data@.len() as int).subrange(0, 16) =~= data@.subrange(
            off_cursor as int,
            off_cursor + 16,
        ));
        assert(bo == offset_at(data@, off_cursor as int));
        frame_offsets.set(k, bo);
        assert(frame_offsets@.subrange(0, k + 1) =~= prev.push(bo));
        off_cursor = off_cursor + 16;
        k = k + 1;
    }
    assert(frame_offsets@.subrange(0, n as int) =~= frame_offsets@);
    Ok(frame_offsets)
}

/// Reads `num` audio offset entries from byte `start` onto `out`, giving
/// the byte after them.
fn read_audio_entries(data: &[u8], start: usize, num: i64, out: &mut Vec<BufferOffset>) -> (r: Result<usize>)
    requires
        num >= 0,
    ensures
        match audio_entries(data@, start as int, num as nat, old(out)@) {
            Ok((acc, c)) => r matches Ok(u) && u == c && final(out)@ == acc,
            Err(e) => r == Err::<usize, McRawError>(e),
        },
{
    let ghost full = audio_entries(data@, start as int, num as nat, old(out)@);
    let mut cur = start;
    let mut j: i64 = 0;
    while j < num
        invariant
            0 <= j <= num,
            full == audio_entries(data@, start as int, num as nat, old(out)@),
            audio_entries(data@, cur as int, (num - j) as nat, out@) == full,
        decreases num - j,
    {
        if cur > data.len() || data.len() - cur < 16 {
            return Err(McRawError::TruncatedData);
        }
        let bo = match parse_buffer_offset(&data[cur..data.len()]) {
            Ok(bo) => bo,
            Err(e) => {
                return Err(e);
            },
        };
        assert(data@.subrange(cur as int, data@.len() as int).subrange(0, 16) =~= data@.subrange(
            cur as int,
            cur + 16,
        ));
        assert(bo == offset_at(data@, cur as int));
        out.push(bo);
        cur = cur + 16;
        j = j + 1;
    }
    Ok(cur)
}

/// Scans the items from byte `start` for audio indexes and collects their
/// entries; `None` where decoding breaks down.
fn scan_audio(data: &[u8], start: usize) -> (r: Option<Result<Vec<BufferOffset>>>)
    ensures
        match audio_scan(data@, start as int, Seq::empty()) {
            None => r is None,
            Some(Err(e)) => r == Some(Err::<Vec<BufferOffset>, McRawError>(e)),
            Some(Ok(a)) => r matches Some(Ok(v)) && v@ == a,
        },
{
    let ghost full = audio_scan(data@, start as int, Seq::empty());
    let mut audio_offsets: Vec<BufferOffset> = Vec::new();
    let mut cur = start;
    loop
        invariant
            full == audio_scan(data@, start as int, Seq::empty()),
            audio_scan(data@, cur as int, audio_offsets@) == full,
        decreases (if cur <= data@.len() {
            data@.len() - cur
        } else {
            0
        }),
    {
        if cur > usize::MAX - 8 {
            return None;
        }
        if cur + 8 > data.len() {
            return Some(Ok(audio_offsets));
        }
        let item = match parse_item(&data[cur..data.len()]) {
            Ok(item) => item,
            Err(_) => {
                return Some(Ok(audio_offsets));
            },
        };
        assert(item_at(data@, cur as int) == Ok::<Item, McRawError>(item));
        let c2 = cur + 8;
        match item.item_type {
            ItemType::Buffer | ItemType::Metadata | ItemType::AudioData
            | ItemType::AudioDataMetadata => {
                if c2 > usize::MAX - item.size as usize {
                    return None;
                }
                cur = c2 + item.size as usize;
            },
            ItemType::AudioIndex => {
                if data.len() - c2 < 16 {
                    return Some(Err(McRawError::TruncatedData));
                }
                let aidx = match parse_audio_index(&data[c2..data.len()]) {
                    Ok(a) => a,
                    Err(e) => {
                        return Some(Err(e));
                    },
                };
                assert(aidx.num_offsets == le_u64(data@, c2 as int) as i64);
                let num = aidx.num_offsets;
                let limit = (isize::MAX as usize) / 16;
                if num < 0 || num as usize > limit || audio_offsets.len() > limit - num as usize {
                    return None;
                }
                audio_offsets.reserve(num as usize);
                let ghost acc0 = audio_offsets@;
                match read_audio_entries(data, c2 + 16, num, &mut audio_offsets) {
                    Ok(c3) => {
                        proof {
                            lemma_audio_entries_advance(data@, c2 + 16, num as nat, acc0);
                        }
                        cur = c3;
                    },
                    Err(e) => {
                        return Some(Err(e));
                    },
                }
            },
            _ => {
                return Some(Ok(audio_offsets));
            },
        }
    }
}

/// Reading an item header from the tail of `d` at `c` reads it from `d` at
/// `c`.
proof fn lemma_item_at_tail(d: Seq<u8>, c: int)
    requires
        0 <= c <= d.len(),
    ensures
        item_at(d.subrange(c, d.len() as int), 0) == item_at(d, c),
{
    let t = d.subrange(c, d.len() as int);
    if c + 8 <= d.len() {
        assert(t[0] == d[c] && t[1] == d[c + 1] && t[2] == d[c + 2] && t[3] == d[c + 3]);
        assert(t[4] == d[c + 4] && t[5] == d[c + 5] && t[6] == d[c + 6] && t[7] == d[c + 7]);
    }
}

/// Reads the item header at byte `cur` of `data`.
fn item_at_cursor(data: &[u8], cur: usize) -> (r: Result<Item>)
    ensures
        r == item_at(data@, cur as int),
        r is Ok ==> cur + 8 <= data@.len(),
{
    if cur > data.len() {
        return Err(McRawError::TruncatedData);
    }
    proof {
        lemma_item_at_tail(data@, cur as int);
    }
    parse_item(&data[cur..data.len()])
}

/// The entry of `frames` for timestamp `ts`: the last one with it.
pub open spec fn frame_entry(frames: Seq<BufferOffset>, ts: i64) -> Option<BufferOffset> {
    if timestamp_map(frames).contains_key(ts) {
        Some(timestamp_map(frames)[ts])
    } else {
        None
    }
}

/// Where the parts of the frame whose buffer item starts at file offset
/// `off` lie in `d`: the start and end of its compressed data and of its
/// metadata JSON; `None` where decoding breaks down.
pub open spec fn frame_parts(d: Seq<u8>, off: i64) -> Option<Result<(int, int, int, int)>> {
    let cur = (off as usize) as int;
    match item_at(d, cur) {
        Err(e) => Some(Err(e)),
        Ok(bi) => {
            let c = cur + 8;
            if c + bi.size > usize::MAX {
                None
            } else if c + bi.size > d.len() {
                Some(Err(McRawError::TruncatedData))
            } else {
                let c_end = c + bi.size;
                match item_at(d, c_end) {
                    Err(e) => Some(Err(e)),
                    Ok(mi) => {
                        let j = c_end + 8;
                        if j + mi.size > usize::MAX {
                            None
                        } else if j + mi.size > d.len() {
                            Some(Err(McRawError::TruncatedData))
                        } else {
                            Some(Ok((c, c_end, j, j + mi.size)))
                        }
                    },
                }
            }
        },
    }
}

/// The metadata JSON bytes of the frame whose index entry is `e`, or the
/// error met finding them; `None` where decoding breaks down.
pub open spec fn frame_json_entry(d: Seq<u8>, e: BufferOffset) -> Option<Result<Seq<u8>>> {
    match frame_parts(d, e.offset) {
        None => None,
        Some(Err(x)) => Some(Err(x)),
        Some(Ok((_, _, j, j_end))) => Some(Ok(d.subrange(j, j_end))),
    }
}

/// The metadata JSON bytes of the frame with timestamp `ts`, or the error
/// met finding them; `None` where decoding breaks down.
pub open spec fn frame_json(d: Seq<u8>, frames: Seq<BufferOffset>, ts: i64) -> Option<Result<Seq<u8>>> {
    match frame_entry(frames, ts) {
        None => Some(Err(McRawError::FrameNotFound(ts))),
        Some(e) => frame_json_entry(d, e),
    }
}

/// How loading a frame ends.
pub enum FrameLoad {
    /// The frame's samples, row by row.
    Decoded(Seq<u16>),
    Failed(Failure),
}

/// Decoding the compressed frame `input` as its metadata `f` says: its
/// size, and its compression type (7 where it has none); `None` where decoding breaks down.
pub open spec fn frame_decode(input: Seq<u8>, f: MetadataFields) -> Option<FrameLoad> {
    match f.width {
        None => Some(FrameLoad::Failed(Failure::Message("missing width"@))),
        Some(w64) => match f.height {
            None => Some(FrameLoad::Failed(Failure::Message("missing height"@))),
            Some(h64) => {
                let w = w64 as usize;
                let h = h64 as usize;
                if w * h > usize::MAX || w * h * 2 > isize::MAX {
                    None
                } else {
                    let comp = match f.compression_type {
                        Some(c) => c,
                        None => 7,
                    };
                    if comp == 7 {
                        match raw_frame(input, w as nat, Seq::new((w * h) as nat, |i: int| 0u16)) {
                            None => None,
                            Some((RawStatus::Decoded(_), out)) => Some(FrameLoad::Decoded(out)),
                            Some((RawStatus::Failed(e), _)) => Some(
                                FrameLoad::Failed(Failure::Error(e)),
                            ),
                            Some((RawStatus::BadHeader, _)) => Some(
                                FrameLoad::Failed(Failure::Message("invalid raw header"@)),
                            ),
                        }
                    } else if comp == 6 {
                        match legacy_frame(input, w as nat, h as nat) {
                            None => None,
                            Some(samples) => Some(FrameLoad::Decoded(samples)),
                        }
                    } else {
                        Some(
                            FrameLoad::Failed(
                                Failure::Error(McRawError::InvalidCompressionType(comp as i32)),
                            ),
                        )
                    }
                }
            },
        },
    }
}

/// A decoded frame holds `width * height` samples, the size its metadata
/// gives.
pub proof fn lemma_decoded_frame_len(input: Seq<u8>, f: MetadataFields)
    ensures
        frame_decode(input, f) matches Some(FrameLoad::Decoded(s)) ==> (f.width matches Some(w) && (
        f.height matches Some(h) && s.len() == (w as usize) * (h as usize))),
{
    if let (Some(w64), Some(h64)) = (f.width, f.height) {
        let w = w64 as usize;
        let h = h64 as usize;
        lemma_raw_frame_written(input, w as nat, Seq::new((w * h) as nat, |i: int| 0u16));
        lemma_legacy_frame_len(input, w as nat, h as nat);
    }
}

/// Loading the frame whose index entry is `e` from the container `d`;
/// `None` where decoding breaks down.
pub open spec fn frame_load_entry(d: Seq<u8>, e: BufferOffset) -> Option<FrameLoad> {
    match frame_parts(d, e.offset) {
        None => None,
        Some(Err(x)) => Some(FrameLoad::Failed(Failure::Error(x))),
        Some(Ok((c, c_end, j, j_end))) => match json_fields(d.subrange(j, j_end)) {
            None => Some(FrameLoad::Failed(Failure::BadJson)),
            Some(f) => frame_decode(d.subrange(c, c_end), f),
        },
    }
}

/// Loading the frame with timestamp `ts` from the container `d` whose
/// sorted frame index is `frames`; `None` where decoding breaks down.
pub open spec fn frame_load(d: Seq<u8>, frames: Seq<BufferOffset>, ts: i64) -> Option<FrameLoad> {
    match frame_entry(frames, ts) {
        None => Some(FrameLoad::Failed(Failure::Error(McRawError::FrameNotFound(ts)))),
        Some(e) => frame_load_entry(d, e),
    }
}

/// A frame is decoded only where its metadata reads: loading the frame
/// succeeds only if loading its metadata alone does.
pub proof fn lemma_decoded_frame_has_metadata(d: Seq<u8>, frames: Seq<BufferOffset>, ts: i64)
    ensures
        frame_load(d, frames, ts) matches Some(FrameLoad::Decoded(_)) ==> (frame_json(d, frames, ts)
            matches Some(Ok(b)) && json_fields(b) is Some),
{
}

/// A timestamp that the sorted index lists is found: loading it loads an
/// entry with that timestamp, never reporting the frame missing.
pub proof fn lemma_listed_frame_found(d: Seq<u8>, frames: Seq<BufferOffset>, i: int)
    requires
        0 <= i < frames.len(),
    ensures
        frame_entry(frames, frames[i].timestamp) matches Some(e) && e.timestamp == frames[i].timestamp
            && frame_load(d, frames, frames[i].timestamp) == frame_load_entry(d, e)
            && frame_json(d, frames, frames[i].timestamp) == frame_json_entry(d, e),
{
    lemma_timestamp_map(frames, frames[i].timestamp);
}

/// Loading a frame by a timestamp that no entry has reports it missing.
pub proof fn lemma_unlisted_frame_missing(d: Seq<u8>, frames: Seq<BufferOffset>, ts: i64)
    requires
        forall|i: int| 0 <= i < frames.len() ==> frames[i].timestamp != ts,
    ensures
        frame_load(d, frames, ts) == Some(FrameLoad::Failed(Failure::Error(McRawError::FrameNotFound(ts)))),
        frame_json(d, frames, ts) == Some(Err::<Seq<u8>, McRawError>(McRawError::FrameNotFound(ts))),
{
    lemma_timestamp_map(frames, ts);
}

/// Finds the compressed data and metadata JSON of the frame whose buffer
/// item starts at file offset `off`.
fn locate_frame(data: &[u8], off: i64) -> (r: Option<Result<(usize, usize, usize, usize)>>)
    ensures
        match frame_parts(data@, off) {
            None => r is None,
            Some(Err(e)) => r == Some(Err::<(usize, usize, usize, usize), McRawError>(e)),
            Some(Ok((c, c_end, j, j_end))) => r matches Some(Ok((a, b, x, y))) && a == c && b == c_end
                && x == j && y == j_end,
        },
{
    let len = data.len();
    let cur = off as usize;
    let bi = match item_at_cursor(data, cur) {
        Ok(item) => item,
        Err(e) => {
            return Some(Err(e));
        },
    };
    assert(cur + 8 <= len);
    let c = cur + 8;
    if bi.size as usize > usize::MAX - c {
        return None;
    }
    let c_end = c + bi.size as usize;
    if c_end > data.len() {
        return Some(Err(McRawError::TruncatedData));
    }
    let mi = match item_at_cursor(data, c_end) {
        Ok(item) => item,
        Err(e) => {
            return Some(Err(e));
        },
    };
    let j = c_end + 8;
    if mi.size as usize > usize::MAX - j {
        return None;
    }
    let j_end = j + mi.size as usize;
    if j_end > data.len() {
        return Some(Err(McRawError::TruncatedData));
    }
    Some(Ok((c, c_end, j, j_end)))
}

/// Decodes the compressed frame `input` as its metadata `fields` says: its
/// size, and its compression type (7 where it has none); `None` on exactly
/// the input on which decoding breaks down.
pub fn decode_frame_checked(input: &[u8], fields: MetadataFields) -> (r: Option<Result<Vec<u16>>>)
    requires
        input@.len() <= isize::MAX,
    ensures
        match frame_decode(input@, fields) {
            None => r is None,
            Some(FrameLoad::Decoded(s)) => r matches Some(Ok(v)) && v@ == s,
            Some(FrameLoad::Failed(f)) => r matches Some(Err(e)) && reports(e, f),
        },
{
    let w64 = match fields.width {
        Some(w) => w,
        None => {
            return Some(Err(McRawError::DecompressionFailed(String::from_str("missing width"))));
        },
    };
    let h64 = match fields.height {
        Some(h) => h,
        None => {
            return Some(Err(McRawError::DecompressionFailed(String::from_str("missing height"))));
        },
    };
    let width = w64 as usize;
    let height = h64 as usize;
    let n = match width.checked_mul(height) {
        Some(n) => n,
        None => {
            return None;
        },
    };
    if n > (isize::MAX as usize) / 2 {
        return None;
    }
    let comp = match fields.compression_type {
        Some(c) => c,
        None => 7,
    };
    let mut output = vec![0u16; n];
    assert(output@ =~= Seq::new(n as nat, |i: int| 0u16));
    if comp == 7 {
        match decode_checked(&mut output, width, height, input) {
            None => None,
            Some(Ok(_)) => Some(Ok(output)),
            Some(Err(e)) => Some(Err(e)),
        }
    } else if comp == 6 {
        match decode_legacy_checked(&mut output, width, height, input) {
            None => None,
            Some(Ok(_)) => {
                assert(output@ =~= legacy_frame(input@, width as nat, height as nat)->0);
                Some(Ok(output))
            },
            Some(Err(e)) => Some(Err(e)),
        }
    } else {
        Some(Err(McRawError::InvalidCompressionType(comp as i32)))
    }
}

/// Whether `data` starts with the container magic `"MOTION "`.
fn has_container_id(data: &[u8]) -> (r: bool)
    requires
        data@.len() >= 7,
    ensures
        r == (data@.subrange(0, 7) == CONTAINER_ID@),
{
    let id = CONTAINER_ID;
    let mut k: usize = 0;
    while k < 7
        invariant
            k <= 7,
            data@.len() >= 7,
            id@ == CONTAINER_ID@,
            forall|j: int| 0 <= j < k ==> data@[j] == id@[j],
        decreases 7 - k,
    {
        if data[k] != id[k] {
            assert(data@.subrange(0, 7)[k as int] != CONTAINER_ID@[k as int]);
            return false;
        }
        k = k + 1;
    }
    assert(data@.subrange(0, 7) =~= CONTAINER_ID@);
    true
}

/// The map from timestamps to entries, filled from `frames` in order, so
/// that a later entry replaces an earlier one with the same timestamp.
fn build_frame_map(frames: &Vec<BufferOffset>) -> (m: HashMap<i64, BufferOffset>)
    ensures
        m@ == timestamp_map(frames@),
{
    let mut m: HashMap<i64, BufferOffset> = HashMap::new();
    let mut k: usize = 0;
    while k < frames.len()
        invariant
            k <= frames@.len(),
            m@ == timestamp_map(frames@.subrange(0, k as int)),
        decreases frames@.len() - k,
    {
        let b = frames[k];
        m.insert(b.timestamp, b);
        assert(frames@.subrange(0, k + 1).drop_last() =~= frames@.subrange(0, k as int));
        k = k + 1;
    }
    assert(frames@.subrange(0, frames@.len() as int) =~= frames@);
    m
}

/// Reads the frame index at the end of `data`, sorts it by timestamp and
/// finds the audio chunks that follow the latest frame.
fn read_index(data: &[u8]) -> (r: Option<Result<(Vec<BufferOffset>, Vec<BufferOffset>)>>)
    requires
        data@.len() <= isize::MAX,
    ensures
        match index_parse(data@) {
            None => r is None,
            Some(Err(e)) => r matches Some(Err(x)) && x == e,
            Some(Ok((frames, audio))) => r matches Some(Ok((s, a))) && s@ == sort_by_timestamp(frames)
                && a@ == audio,
        },
{
    let ghost d = data@;
    if data.len() < 24 {
        return Some(Err(McRawError::TruncatedData));
    }
    let end = data.len() - 24;
    let idx_item = match item_at_cursor(data, end) {
        Ok(item) => item,
        Err(e) => {
            return Some(Err(e));
        },
    };
    if idx_item.item_type != ItemType::BufferIndex {
        return Some(Err(McRawError::InvalidItemType(idx_item.item_type.as_u32())));
    }
    let buf_idx = match parse_buffer_index(&data[end + 8..data.len()]) {
        Ok(b) => b,
        Err(e) => {
            return Some(Err(e));
        },
    };
    assert(buf_idx.magic_number == le_u32(d, end + 8));
    assert(buf_idx.num_offsets == le_u32(d, end + 12) as i32);
    assert(buf_idx.index_data_offset == le_u64(d, end + 16) as i64);
    if buf_idx.magic_number != INDEX_MAGIC_NUMBER {
        return Some(Err(McRawError::CorruptedIndex));
    }
    if buf_idx.num_offsets < 0 || buf_idx.num_offsets as usize > (isize::MAX as usize) / 16 {
        return None;
    }
    let mut frame_offsets = match read_frame_index(
        data,
        buf_idx.index_data_offset as usize,
        buf_idx.num_offsets as usize,
    ) {
        Ok(v) => v,
        Err(e) => {
            return Some(Err(e));
        },
    };
    sort_offsets(&mut frame_offsets);
    let audio_offsets = if frame_offsets.len() == 0 {
        Vec::new()
    } else {
        let last = frame_offsets[frame_offsets.len() - 1];
        match scan_audio(data, last.offset as usize) {
            None => {
                return None;
            },
            Some(Err(e)) => {
                return Some(Err(e));
            },
            Some(Ok(a)) => a,
        }
    };
    Some(Ok((frame_offsets, audio_offsets)))
}

/// A chunk of decoded audio data.
pub struct AudioChunk {
    /// Timestamp of this chunk in nanoseconds, or `-1` if unavailable.
    pub timestamp_ns: i64,
    /// 16-bit signed PCM samples.
    pub samples: Vec<i16>,
}

/// The 16-bit little-endian samples in `b`; an odd last byte is dropped.
pub open spec fn le_i16_samples(b: Seq<u8>) -> Seq<i16> {
    Seq::new(b.len() / 2, |i: int| ((b[2 * i] + 256 * b[2 * i + 1]) as u16) as i16)
}

/// The timestamp and samples of each chunk.
pub open spec fn chunk_views(v: Seq<AudioChunk>) -> Seq<(i64, Seq<i16>)> {
    v.map_values(|c: AudioChunk| (c.timestamp_ns, c.samples@))
}

/// The audio chunk whose item starts at file offset `off`: its timestamp
/// (`-1` where no audio metadata item with one follows it) and samples, or
/// `None` inside where the item there is not audio data; the outer `None`
/// where decoding breaks down.
pub open spec fn audio_chunk(d: Seq<u8>, off: i64) -> Option<Result<Option<(i64, Seq<i16>)>>> {
    let cur = (off as usize) as int;
    if cur + 8 > usize::MAX {
        None
    } else if cur + 8 > d.len() {
        Some(Ok(None))
    } else {
        match item_at(d, cur) {
            Err(e) => Some(Err(e)),
            Ok(item) => if item.item_type != ItemType::AudioData {
                Some(Ok(None))
            } else {
                let c = cur + 8;
                if c + item.size > usize::MAX {
                    None
                } else if c + item.size > d.len() {
                    Some(Err(McRawError::TruncatedData))
                } else {
                    let c2 = c + item.size;
                    let ts = if c2 + 8 <= d.len() {
                        match item_at(d, c2) {
                            Ok(mi) => if mi.item_type == ItemType::AudioDataMetadata && c2 + 16
                                <= d.len() {
                                le_u64(d, c2 + 8) as i64
                            } else {
                                -1i64
                            },
                            Err(_) => -1i64,
                        }
                    } else {
                        -1i64
                    };
                    Some(Ok(Some((ts, le_i16_samples(d.subrange(c, c2))))))
                }
            },
        }
    }
}

/// The audio chunks at the offsets `audio[k..]`, after those in `acc`.
pub open spec fn audio_load(d: Seq<u8>, audio: Seq<BufferOffset>, k: nat, acc: Seq<(i64, Seq<i16>)>) -> Option<
    Result<Seq<(i64, Seq<i16>)>>,
>
    decreases audio.len() - k,
{
    if k >= audio.len() {
        Some(Ok(acc))
    } else {
        match audio_chunk(d, audio[k as int].offset) {
            None => None,
            Some(Err(e)) => Some(Err(e)),
            Some(Ok(None)) => audio_load(d, audio, k + 1, acc),
            Some(Ok(Some(c))) => audio_load(d, audio, k + 1, acc.push(c)),
        }
    }
}

/// Audio chunks come out in the order of the audio index: where every
/// offset from `k` on holds an audio data item, the chunks read are those
/// in `acc` followed by the chunk at each of those offsets, in order.
pub proof fn lemma_audio_load_order(d: Seq<u8>, audio: Seq<BufferOffset>, k: nat, acc: Seq<(i64, Seq<i16>)>)
    requires
        k <= audio.len(),
        forall|m: int| k <= m < audio.len() ==> #[trigger] audio_chunk(d, audio[m].offset) matches Some(
            Ok(Some(_)),
        ),
    ensures
        audio_load(d, audio, k, acc) matches Some(Ok(cs)) && cs.len() == acc.len() + (audio.len() - k)
            && cs.subrange(0, acc.len() as int) == acc && forall|m: int|
            k <= m < audio.len() ==> audio_chunk(d, audio[m].offset) == Some(
                Ok::<Option<(i64, Seq<i16>)>, McRawError>(Some(#[trigger] cs[acc.len() + m - k])),
            ),
    decreases audio.len() - k,
{
    if k < audio.len() {
        let c = audio_chunk(d, audio[k as int].offset)->Some_0->Ok_0->Some_0;
        assert(audio_chunk(d, audio[k as int].offset) matches Some(Ok(Some(_))));
        lemma_audio_load_order(d, audio, k + 1, acc.push(c));
        let cs = audio_load(d, audio, k + 1, acc.push(c))->Some_0->Ok_0;
        assert(cs.subrange(0, acc.len() as int) =~= acc.push(c).subrange(0, acc.len() as int));
        assert(cs.subrange(0, (acc.len() + 1) as int)[acc.len() as int] == c);
        assert forall|m: int| k <= m < audio.len() implies audio_chunk(d, audio[m].offset) == Some(
            Ok::<Option<(i64, Seq<i16>)>, McRawError>(Some(#[trigger] cs[acc.len() + m - k])),
        ) by {
            if m > k {
                assert(acc.len() + m - k == acc.push(c).len() + m - (k + 1));
            }
        }
    } else {
        assert(acc.subrange(0, acc.len() as int) =~= acc);
    }
}

/// The chunks read from a container whose audio offsets all hold audio
/// data items are, in order, the chunks at those offsets.
proof fn lemma_chunks_in_order(d: Seq<u8>, audio: Seq<BufferOffset>, v: Seq<AudioChunk>)
    requires
        audio_load(d, audio, 0, Seq::empty()) == Some(
            Ok::<Seq<(i64, Seq<i16>)>, McRawError>(chunk_views(v)),
        ),
    ensures
        (forall|m: int|
            0 <= m < audio.len() ==> #[trigger] audio_chunk(d, audio[m].offset) matches Some(
                Ok(Some(_)),
            )) ==> (v.len() == audio.len() && forall|m: int|
            0 <= m < v.len() ==> audio_chunk(d, audio[m].offset) == Some(
                Ok::<Option<(i64, Seq<i16>)>, McRawError>(
                    Some((#[trigger] v[m].timestamp_ns, v[m].samples@)),
                ),
            )),
{
    if forall|m: int|
        0 <= m < audio.len() ==> #[trigger] audio_chunk(d, audio[m].offset) matches Some(
            Ok(Some(_)),
        ) {
        lemma_audio_load_order(d, audio, 0, Seq::empty());
        assert forall|m: int| 0 <= m < v.len() implies audio_chunk(d, audio[m].offset) == Some(
            Ok::<Option<(i64, Seq<i16>)>, McRawError>(
                Some((#[trigger] v[m].timestamp_ns, v[m].samples@)),
            ),
        ) by {
            assert(chunk_views(v)[0 + m - 0] == (v[m].timestamp_ns, v[m].samples@));
        }
    }
}

/// `i16::from_le_bytes([b0, b1])`.
fn i16_from_le_pair(b0: u8, b1: u8) -> (r: i16)
    ensures
        r == ((b0 + 256 * b1) as u16) as i16,
{
    assert((b0 as u16) | ((b1 as u16) << 8u16) == (b0 + 256 * b1) as u16) by (bit_vector);
    ((b0 as u16) | ((b1 as u16) << 8)) as i16
}

/// The 16-bit little-endian samples in `bytes`.
fn samples_of(bytes: &[u8]) -> (r: Vec<i16>)
    ensures
        r@ == le_i16_samples(bytes@),
{
    let n = bytes.len() / 2;
    let mut v: Vec<i16> = Vec::with_capacity(n);
    let mut k: usize = 0;
    while k < n
        invariant
            k <= n,
            n == bytes@.len() / 2,
            bytes@.len() == bytes.len(),
            v@ == le_i16_samples(bytes@).subrange(0, k as int),
        decreases n - k,
    {
        assert(2 * k + 1 < bytes.len());
        let x = i16_from_le_pair(bytes[2 * k], bytes[2 * k + 1]);
        v.push(x);
        assert(v@ =~= le_i16_samples(bytes@).subrange(0, k + 1));
        k = k + 1;
    }
    assert(v@ =~= le_i16_samples(bytes@));
    v
}

/// Reads the audio chunk whose item starts at file offset `off`.
fn read_audio_chunk(data: &[u8], off: i64) -> (r: Option<Result<Option<AudioChunk>>>)
    requires
        data@.len() <= isize::MAX,
    ensures
        match audio_chunk(data@, off) {
            None => r is None,
            Some(Err(e)) => r matches Some(Err(x)) && x == e,
            Some(Ok(None)) => r matches Some(Ok(None)),
            Some(Ok(Some((ts, s)))) => r matches Some(Ok(Some(c))) && c.timestamp_ns == ts
                && c.samples@ == s,
        },
{
    let len = data.len();
    let cur = off as usize;
    if cur > usize::MAX - 8 {
        return None;
    }
    if cur + 8 > len {
        return Some(Ok(None));
    }
    let item = match item_at_cursor(data, cur) {
        Ok(item) => item,
        Err(e) => {
            return Some(Err(e));
        },
    };
    if item.item_type != ItemType::AudioData {
        return Some(Ok(None));
    }
    let c = cur + 8;
    if item.size as usize > usize::MAX - c {
        return None;
    }
    let c2 = c + item.size as usize;
    if c2 > len {
        return Some(Err(McRawError::TruncatedData));
    }
    let samples = samples_of(&data[c..c2]);
    let mut timestamp_ns: i64 = -1;
    if c2 + 8 <= len {
        match item_at_cursor(data, c2) {
            Ok(mi) => {
                if mi.item_type == ItemType::AudioDataMetadata && c2 + 16 <= len {
                    match read_le_bytes::<8>(data, c2 + 8) {
                        Ok(a) => {
                            timestamp_ns = i64_from_le_bytes(a);
                        },
                        Err(e) => {
                            return Some(Err(e));
                        },
                    }
                }
            },
            Err(_) => {},
        }
    }
    Some(Ok(Some(AudioChunk { timestamp_ns, samples })))
}

/// Decoder for MCRAW container files.
///
/// Holds the memory-mapped file, its container metadata, the frame index
/// sorted by timestamp (and a map from timestamp to entry) and the offsets
/// of the audio chunks.
pub struct Decoder {
    mmap: Mmap,
    metadata: Value,
    frame_offsets: Vec<BufferOffset>,
    frame_map: HashMap<i64, BufferOffset>,
    audio_offsets: Vec<BufferOffset>,
    index: Ghost<ContainerIndex>,
}

impl Decoder {
    #[verifier::type_invariant]
    spec fn inv(self) -> bool {
        &&& container_parse(mmap_bytes(self.mmap)) == Some(ContainerStatus::Parsed(self.index@))
        &&& self.metadata == self.index@.metadata
        &&& self.frame_offsets@ == sort_by_timestamp(self.index@.frames)
        &&& self.audio_offsets@ == self.index@.audio
        &&& self.frame_map@ == timestamp_map(self.frame_offsets@)
    }

    /// The bytes of the container.
    pub closed spec fn bytes(self) -> Seq<u8> {
        mmap_bytes(self.mmap)
    }

    /// What the container was parsed to.
    pub closed spec fn index(self) -> ContainerIndex {
        self.index@
    }

    /// The container-level metadata: the JSON document that opening the
    /// container parsed from its metadata item.
    pub open spec fn metadata(self) -> Value {
        self.index().metadata
    }

    /// The frame index, sorted by timestamp.
    pub open spec fn frames(self) -> Seq<BufferOffset> {
        sort_by_timestamp(self.index().frames)
    }

    /// Opens the MCRAW container held by `mmap`: checks its header, reads
    /// its metadata and frame index and finds its audio chunks, as
    /// `container_parse` describes; `None` on exactly the containers on
    /// which decoding breaks down.
    pub fn from_mmap_checked(mmap: Mmap) -> (r: Option<Result<Decoder>>)
        ensures
            match container_parse(mmap_bytes(mmap)) {
                None => r is None,
                Some(ContainerStatus::Failed(f)) => r matches Some(Err(e)) && reports(e, f),
                Some(ContainerStatus::Parsed(idx)) => r matches Some(Ok(dec)) && dec.bytes()
                    == mmap_bytes(mmap) && dec.index() == idx,
            },
    {
        let data = mapped(&mmap);
        let ghost d = data@;
        if data.len() < 8 || !has_container_id(data) {
            return Some(Err(McRawError::InvalidHeader));
        }
        if data[7] != CONTAINER_VERSION {
            return Some(Err(McRawError::UnsupportedVersion(data[7])));
        }
        let meta_item = match parse_item(&data[8..data.len()]) {
            Ok(item) => item,
            Err(e) => {
                return Some(Err(e));
            },
        };
        assert(item_at(d, 8) == Ok::<Item, McRawError>(meta_item));
        if meta_item.item_type != ItemType::Metadata {
            return Some(Err(McRawError::InvalidItemType(meta_item.item_type.as_u32())));
        }
        if meta_item.size as usize > usize::MAX - 16 {
            return None;
        }
        let meta_end = 16 + meta_item.size as usize;
        if meta_end > data.len() {
            return Some(Err(McRawError::TruncatedData));
        }
        let metadata = match parse_json(&data[16..meta_end]) {
            Ok(v) => v,
            Err(e) => {
                return Some(Err(McRawError::MetadataParse(e)));
            },
        };
        let (frame_offsets, audio_offsets) = match read_index(data) {
            None => {
                return None;
            },
            Some(Err(e)) => {
                return Some(Err(e));
            },
            Some(Ok(p)) => p,
        };
        let ghost file_frames = index_parse(d)->Some_0->Ok_0.0;
        let frame_map = build_frame_map(&frame_offsets);
        let ghost idx = ContainerIndex {
            metadata,
            fields: fields_of(metadata),
            frames: file_frames,
            audio: audio_offsets@,
        };
        Some(
            Ok(
                Decoder {
                    mmap,
                    metadata,
                    frame_offsets,
                    frame_map,
                    audio_offsets,
                    index: Ghost(idx),
                },
            ),
        )
    }

    /// The container-level metadata (JSON).
    pub fn container_metadata(&self) -> (r: &Value)
        ensures
            *r == self.metadata(),
    {
        proof {
            use_type_invariant(self);
        }
        &self.metadata
    }

    /// The timestamps of all frames, in increasing order.
    pub fn frame_timestamps(&self) -> (r: Vec<i64>)
        ensures
            r@ == self.frames().map_values(|b: BufferOffset| b.timestamp),
            r@.len() == self.index().frames.len(),
            forall|i: int, j: int| 0 <= i < j < r@.len() ==> r@[i] <= r@[j],
    {
        proof {
            use_type_invariant(self);
            lemma_sort_by_timestamp(self.index().frames);
        }
        let n = self.frame_offsets.len();
        let mut v: Vec<i64> = Vec::with_capacity(n);
        let mut k: usize = 0;
        while k < n
            invariant
                k <= n,
                n == self.frame_offsets@.len(),
                v@ == self.frame_offsets@.map_values(|b: BufferOffset| b.timestamp).subrange(0, k as int),
            decreases n - k,
        {
            v.push(self.frame_offsets[k].timestamp);
            assert(v@ =~= self.frame_offsets@.map_values(|b: BufferOffset| b.timestamp).subrange(0, k + 1));
            k = k + 1;
        }
        assert(v@ =~= self.frame_offsets@.map_values(|b: BufferOffset| b.timestamp));
        v
    }

    /// Audio sample rate in Hz, read from the container metadata; 0 where it
    /// has none.
    pub fn audio_sample_rate_hz(&self) -> (r: i64)
        ensures
            r == match json_as_i64(json_get(json_get(self.metadata(), "extraData"@), "audioSampleRate"@)) {
                Some(x) => x,
                None => 0,
            },
            r == match self.index().fields.audio_sample_rate {
                Some(x) => x,
                None => 0,
            },
    {
        proof {
            use_type_invariant(self);
        }
        let extra = json_member(&self.metadata, "extraData");
        match value_as_i64(json_member(extra, "audioSampleRate")) {
            Some(x) => x,
            None => 0,
        }
    }

    /// Number of audio channels, read from the container metadata; 0 where
    /// it has none.
    pub fn num_audio_channels(&self) -> (r: i64)
        ensures
            r == match json_as_i64(json_get(json_get(self.metadata(), "extraData"@), "audioChannels"@)) {
                Some(x) => x,
                None => 0,
            },
            r == match self.index().fields.audio_channels {
                Some(x) => x,
                None => 0,
            },
    {
        proof {
            use_type_invariant(self);
        }
        let extra = json_member(&self.metadata, "extraData");
        match value_as_i64(json_member(extra, "audioChannels")) {
            Some(x) => x,
            None => 0,
        }
    }

    /// The entry of the frame with this timestamp.
    fn frame_entry_of(&self, timestamp: i64) -> (r: Option<BufferOffset>)
        ensures
            r == frame_entry(self.frames(), timestamp),
    {
        proof {
            use_type_invariant(self);
        }
        match self.frame_map.get(&timestamp) {
            Some(b) => Some(*b),
            None => None,
        }
    }

    /// Loads the metadata of the frame with this timestamp without decoding
    /// its pixels; `None` on exactly the inputs on which decoding breaks down.
    pub fn load_frame_metadata_checked(&self, timestamp: i64) -> (r: Option<Result<Value>>)
        ensures
            match frame_json(self.bytes(), self.frames(), timestamp) {
                None => r is None,
                Some(Err(e)) => r matches Some(Err(x)) && x == e,
                Some(Ok(b)) => match json_value(b) {
                    Some(v) => r matches Some(Ok(m)) && m == v,
                    None => r matches Some(Err(McRawError::MetadataParse(_))),
                },
            },
    {
        let entry = match self.frame_entry_of(timestamp) {
            Some(b) => b,
            None => {
                return Some(Err(McRawError::FrameNotFound(timestamp)));
            },
        };
        let data = mapped(&self.mmap);
        let (_, _, j, j_end) = match locate_frame(data, entry.offset) {
            None => {
                return None;
            },
            Some(Err(e)) => {
                return Some(Err(e));
            },
            Some(Ok(p)) => p,
        };
        match parse_json(&data[j..j_end]) {
            Ok(metadata) => Some(Ok(metadata)),
            Err(e) => Some(Err(McRawError::MetadataParse(e))),
        }
    }

    /// Loads the metadata of the frame with this timestamp without decoding
    /// its pixels.
    pub fn load_frame_metadata(&self, timestamp: i64) -> (r: Result<Value>)
        requires
            frame_json(self.bytes(), self.frames(), timestamp) is Some,
        ensures
            match frame_json(self.bytes(), self.frames(), timestamp) {
                None => false,
                Some(Err(e)) => r matches Err(x) && x == e,
                Some(Ok(b)) => match json_value(b) {
                    Some(v) => r matches Ok(m) && m == v,
                    None => r matches Err(McRawError::MetadataParse(_)),
                },
            },
    {
        match self.load_frame_metadata_checked(timestamp) {
            Some(r) => r,
            None => {
                proof {
                    assert(false);
                }
                Err(McRawError::TruncatedData)
            },
        }
    }

    /// Loads and decodes the frame with this timestamp: its pixels, row by
    /// row (Bayer raw data), and its metadata; `None` on exactly the inputs
    /// on which decoding breaks down.
    pub fn load_frame_checked(&self, timestamp: i64) -> (r: Option<Result<(Vec<u16>, Value)>>)
        ensures
            match frame_load(self.bytes(), self.frames(), timestamp) {
                None => r is None,
                Some(FrameLoad::Decoded(s)) => r matches Some(Ok((v, m))) && v@ == s && (frame_json(
                    self.bytes(),
                    self.frames(),
                    timestamp,
                ) matches Some(Ok(b)) && json_value(b) == Some(m)),
                Some(FrameLoad::Failed(f)) => r matches Some(Err(e)) && reports(e, f),
            },
    {
        let entry = match self.frame_entry_of(timestamp) {
            Some(b) => b,
            None => {
                return Some(Err(McRawError::FrameNotFound(timestamp)));
            },
        };
        let data = mapped(&self.mmap);
        let (c, c_end, j, j_end) = match locate_frame(data, entry.offset) {
            None => {
                return None;
            },
            Some(Err(e)) => {
                return Some(Err(e));
            },
            Some(Ok(p)) => p,
        };
        let metadata = match parse_json(&data[j..j_end]) {
            Ok(v) => v,
            Err(e) => {
                return Some(Err(McRawError::MetadataParse(e)));
            },
        };
        let fields = metadata_fields(&metadata);
        match decode_frame_checked(&data[c..c_end], fields) {
            None => None,
            Some(Ok(pixels)) => Some(Ok((pixels, metadata))),
            Some(Err(e)) => Some(Err(e)),
        }
    }

    /// Loads and decodes the frame with this timestamp: its pixels, row by
    /// row (Bayer raw data), and its metadata.
    pub fn load_frame(&self, timestamp: i64) -> (r: Result<(Vec<u16>, Value)>)
        requires
            frame_load(self.bytes(), self.frames(), timestamp) is Some,
        ensures
            match frame_load(self.bytes(), self.frames(), timestamp) {
                None => false,
                Some(FrameLoad::Decoded(s)) => r matches Ok((v, m)) && v@ == s && (frame_json(
                    self.bytes(),
                    self.frames(),
                    timestamp,
                ) matches Some(Ok(b)) && json_value(b) == Some(m)),
                Some(FrameLoad::Failed(f)) => r matches Err(e) && reports(e, f),
            },
    {
        match self.load_frame_checked(timestamp) {
            Some(r) => r,
            None => {
                proof {
                    assert(false);
                }
                Err(McRawError::TruncatedData)
            },
        }
    }

    /// Loads all audio chunks of the container, in the order of its audio
    /// index; `None` on exactly the containers on which decoding breaks down.
    pub fn load_audio_checked(&self) -> (r: Option<Result<Vec<AudioChunk>>>)
        ensures
            match audio_load(self.bytes(), self.index().audio, 0, Seq::empty()) {
                None => r is None,
                Some(Err(e)) => r matches Some(Err(x)) && x == e,
                Some(Ok(cs)) => r matches Some(Ok(v)) && chunk_views(v@) == cs,
            },
            (forall|m: int|
                0 <= m < self.index().audio.len() ==> #[trigger] audio_chunk(
                    self.bytes(),
                    self.index().audio[m].offset,
                ) matches Some(Ok(Some(_)))) ==> (r matches Some(Ok(v)) && v.len()
                == self.index().audio.len() && forall|m: int|
                0 <= m < v.len() ==> audio_chunk(self.bytes(), self.index().audio[m].offset) == Some(
                    Ok::<Option<(i64, Seq<i16>)>, McRawError>(
                        Some((#[trigger] v@[m].timestamp_ns, v@[m].samples@)),
                    ),
                )),
    {
        proof {
            use_type_invariant(self);
        }
        let data = mapped(&self.mmap);
        let ghost full = audio_load(self.bytes(), self.index().audio, 0, Seq::empty());
        let n = self.audio_offsets.len();
        let mut chunks: Vec<AudioChunk> = Vec::with_capacity(n);
        let mut k: usize = 0;
        assert(chunk_views(chunks@) =~= Seq::empty());
        while k < n
            invariant
                k <= n,
                n == self.audio_offsets@.len(),
                self.audio_offsets@ == self.index().audio,
                data@ == self.bytes(),
                data@.len() <= isize::MAX,
                full == audio_load(self.bytes(), self.index().audio, 0, Seq::empty()),
                audio_load(data@, self.audio_offsets@, k as nat, chunk_views(chunks@)) == full,
            decreases n - k,
        {
            let ghost before = chunk_views(chunks@);
            match read_audio_chunk(data, self.audio_offsets[k].offset) {
                None => {
                    return None;
                },
                Some(Err(e)) => {
                    return Some(Err(e));
                },
                Some(Ok(None)) => {},
                Some(Ok(Some(c))) => {
                    let ghost cv = (c.timestamp_ns, c.samples@);
                    chunks.push(c);
                    assert(chunk_views(chunks@) =~= before.push(cv));
                },
            }
            k = k + 1;
        }
        proof {
            lemma_chunks_in_order(self.bytes(), self.index().audio, chunks@);
        }
        Some(Ok(chunks))
    }

    /// Loads all audio chunks of the container, in the order of its audio
    /// index.
    pub fn load_audio(&self) -> (r: Result<Vec<AudioChunk>>)
        requires
            audio_load(self.bytes(), self.index().audio, 0, Seq::empty()) is Some,
        ensures
            match audio_load(self.bytes(), self.index().audio, 0, Seq::empty()) {
                None => false,
                Some(Err(e)) => r matches Err(x) && x == e,
                Some(Ok(cs)) => r matches Ok(v) && chunk_views(v@) == cs,
            },
            (forall|m: int|
                0 <= m < self.index().audio.len() ==> #[trigger] audio_chunk(
                    self.bytes(),
                    self.index().audio[m].offset,
                ) matches Some(Ok(Some(_)))) ==> (r matches Ok(v) && v.len()
                == self.index().audio.len() && forall|m: int|
                0 <= m < v.len() ==> audio_chunk(self.bytes(), self.index().audio[m].offset) == Some(
                    Ok::<Option<(i64, Seq<i16>)>, McRawError>(
                        Some((#[trigger] v@[m].timestamp_ns, v@[m].samples@)),
                    ),
                )),
    {
        match self.load_audio_checked() {
            Some(r) => r,
            None => {
                proof {
                    assert(false);
                }
                Err(McRawError::TruncatedData)
            },
        }
    }
}

} // verus!
