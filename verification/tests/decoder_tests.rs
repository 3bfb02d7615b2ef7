use memmap2::{Mmap, MmapMut};
use motioncam_decoder::{Decoder, McRawError, INDEX_MAGIC_NUMBER};

fn map(bytes: &[u8]) -> Mmap {
    let mut m = MmapMut::map_anon(bytes.len().max(1)).unwrap();
    m[..bytes.len()].copy_from_slice(bytes);
    let m = m.make_read_only().unwrap();
    assert!(m.len() >= bytes.len());
    m
}

/// Maps exactly `bytes` (which must not be empty).
fn map_exact(bytes: &[u8]) -> Mmap {
    assert!(!bytes.is_empty());
    let m = map(bytes);
    assert_eq!(m.len(), bytes.len());
    m
}

/// The position of the first occurrence of `pat` in `bytes`.
fn find(bytes: &[u8], pat: &str) -> usize {
    bytes.windows(pat.len()).position(|w| w == pat.as_bytes()).unwrap()
}

fn item(v: &mut Vec<u8>, kind: u32, size: usize) {
    v.extend_from_slice(&kind.to_le_bytes());
    v.extend_from_slice(&(size as u32).to_le_bytes());
}

/// The legacy frame of `legacy_row()` in the frame tests: 32 x 1 samples.
fn legacy_row() -> Vec<u8> {
    let mut v = vec![0x80, 0x10];
    v.extend(0u8..16);
    v.extend_from_slice(&[0x00, 0x03]);
    v.push(0);
    v
}

struct Container {
    bytes: Vec<u8>,
    audio_offset: usize,
}

fn push_frame(v: &mut Vec<u8>, compressed: &[u8], json: &str) -> usize {
    let at = v.len();
    item(v, 2, compressed.len());
    v.extend_from_slice(compressed);
    item(v, 3, json.len());
    v.extend_from_slice(json.as_bytes());
    at
}

/// A container with two legacy frames, written out of timestamp order, and
/// one audio chunk.
fn container() -> Container {
    let mut v = b"MOTION ".to_vec();
    v.push(3);
    let meta = r#"{"extraData":{"audioSampleRate":48000,"audioChannels":2}}"#;
    item(&mut v, 3, meta.len());
    v.extend_from_slice(meta.as_bytes());
    let f1 = push_frame(&mut v, &legacy_row(), r#"{"width":32,"height":1,"compressionType":6}"#);
    let mut row2 = legacy_row();
    row2[1] = 0x20;
    let f2 = push_frame(&mut v, &row2, r#"{"width":16,"height":1,"compressionType":6}"#);
    // Audio: three samples and a chunk timestamp.
    let audio_offset = v.len();
    item(&mut v, 5, 7);
    v.extend_from_slice(&[0x01, 0x00, 0xFF, 0xFF, 0x00, 0x01, 0xAA]);
    item(&mut v, 6, 8);
    v.extend_from_slice(&123_456_789i64.to_le_bytes());
    item(&mut v, 4, 32);
    v.extend_from_slice(&1i64.to_le_bytes());
    v.extend_from_slice(&0i64.to_le_bytes());
    v.extend_from_slice(&(audio_offset as i64).to_le_bytes());
    v.extend_from_slice(&0i64.to_le_bytes());
    // Frame index: frame 1 has the later timestamp.
    item(&mut v, 1, 32);
    let index_at = v.len();
    v.extend_from_slice(&(f1 as i64).to_le_bytes());
    v.extend_from_slice(&2000i64.to_le_bytes());
    v.extend_from_slice(&(f2 as i64).to_le_bytes());
    v.extend_from_slice(&1000i64.to_le_bytes());
    item(&mut v, 0, 16);
    v.extend_from_slice(&INDEX_MAGIC_NUMBER.to_le_bytes());
    v.extend_from_slice(&2i32.to_le_bytes());
    v.extend_from_slice(&(index_at as i64).to_le_bytes());
    Container { bytes: v, audio_offset }
}

fn open(bytes: &[u8]) -> Result<Decoder, McRawError> {
    Decoder::from_mmap_checked(map_exact(bytes)).expect("no panic case")
}

#[test]
fn timestamps_are_sorted() {
    let c = container();
    let d = open(&c.bytes).unwrap();
    assert_eq!(d.frame_timestamps(), vec![1000, 2000]);
}

#[test]
fn container_metadata_and_audio_parameters() {
    let c = container();
    let d = open(&c.bytes).unwrap();
    assert_eq!(d.audio_sample_rate_hz(), 48000);
    assert_eq!(d.num_audio_channels(), 2);
    assert_eq!(d.container_metadata()["extraData"]["audioChannels"].as_i64(), Some(2));
}

#[test]
fn audio_parameters_default_to_zero() {
    let mut c = container();
    // Replace the container metadata with one of the same length that
    // lacks the audio keys.
    let meta = r#"{"extraData":{"audioSampleRatX":48000,"audioChannelX":2}}"#;
    c.bytes[16..16 + meta.len()].copy_from_slice(meta.as_bytes());
    let d = open(&c.bytes).unwrap();
    assert_eq!(d.audio_sample_rate_hz(), 0);
    assert_eq!(d.num_audio_channels(), 0);
}

#[test]
fn load_frame_by_timestamp() {
    let c = container();
    let d = open(&c.bytes).unwrap();
    let (pixels, meta) = d.load_frame(2000).unwrap();
    assert_eq!(meta["width"].as_u64(), Some(32));
    assert_eq!(pixels.len(), 32);
    for i in 0..16 {
        assert_eq!(pixels[2 * i], 16 + i as u16);
        assert_eq!(pixels[2 * i + 1], 3);
    }
    let (pixels, _) = d.load_frame(1000).unwrap();
    assert_eq!(pixels.len(), 16);
    for i in 0..8 {
        assert_eq!(pixels[2 * i], 32 + i as u16);
        assert_eq!(pixels[2 * i + 1], 3);
    }
}

#[test]
fn every_listed_frame_is_found() {
    let c = container();
    let d = open(&c.bytes).unwrap();
    for ts in d.frame_timestamps() {
        assert!(d.load_frame(ts).is_ok());
        assert!(d.load_frame_metadata(ts).is_ok());
    }
}

#[test]
fn unlisted_frame_is_not_found() {
    let c = container();
    let d = open(&c.bytes).unwrap();
    assert!(matches!(d.load_frame(1500), Err(McRawError::FrameNotFound(1500))));
    assert!(matches!(d.load_frame_metadata(-1), Err(McRawError::FrameNotFound(-1))));
    assert!(matches!(d.load_frame_checked(7), Some(Err(McRawError::FrameNotFound(7)))));
}

#[test]
fn load_frame_metadata_reads_the_frame_json() {
    let c = container();
    let d = open(&c.bytes).unwrap();
    let meta = d.load_frame_metadata(1000).unwrap();
    assert_eq!(meta["width"].as_u64(), Some(16));
    assert_eq!(meta["compressionType"].as_i64(), Some(6));
}

#[test]
fn load_audio_reads_samples_and_timestamp() {
    let c = container();
    let d = open(&c.bytes).unwrap();
    let chunks = d.load_audio().unwrap();
    assert_eq!(chunks.len(), 1);
    assert_eq!(chunks[0].timestamp_ns, 123_456_789);
    assert_eq!(chunks[0].samples, vec![1, -1, 256]);
}

#[test]
fn audio_without_metadata_item_has_no_timestamp() {
    let mut c = container();
    // Turn the audio metadata item into a buffer item.
    let at = c.audio_offset + 8 + 7;
    c.bytes[at..at + 4].copy_from_slice(&2u32.to_le_bytes());
    let d = open(&c.bytes).unwrap();
    let chunks = d.load_audio().unwrap();
    assert_eq!(chunks.len(), 1);
    assert_eq!(chunks[0].timestamp_ns, -1);
}

#[test]
fn bad_magic_is_invalid_header() {
    let mut c = container();
    c.bytes[0] = b'N';
    assert!(matches!(open(&c.bytes), Err(McRawError::InvalidHeader)));
    assert!(matches!(open(b"MOTION"), Err(McRawError::InvalidHeader)));
}

#[test]
fn other_version_is_unsupported() {
    let mut c = container();
    c.bytes[7] = 2;
    assert!(matches!(open(&c.bytes), Err(McRawError::UnsupportedVersion(2))));
}

#[test]
fn first_item_must_be_metadata() {
    let mut c = container();
    c.bytes[8] = 2;
    assert!(matches!(open(&c.bytes), Err(McRawError::InvalidItemType(2))));
    c.bytes[8] = 9;
    assert!(matches!(open(&c.bytes), Err(McRawError::InvalidItemType(9))));
}

#[test]
fn bad_container_json_is_a_parse_error() {
    let mut c = container();
    c.bytes[16] = b'x';
    assert!(matches!(open(&c.bytes), Err(McRawError::MetadataParse(_))));
}

#[test]
fn metadata_past_the_end_is_truncated() {
    let mut v = b"MOTION ".to_vec();
    v.push(3);
    item(&mut v, 3, 100);
    v.extend_from_slice(b"{}");
    assert!(matches!(open(&v), Err(McRawError::TruncatedData)));
}

#[test]
fn bad_index_magic_is_corrupted_index() {
    let mut c = container();
    let n = c.bytes.len();
    c.bytes[n - 16] ^= 1;
    assert!(matches!(open(&c.bytes), Err(McRawError::CorruptedIndex)));
}

#[test]
fn last_item_must_be_the_index() {
    let mut c = container();
    let n = c.bytes.len();
    c.bytes[n - 24] = 1;
    assert!(matches!(open(&c.bytes), Err(McRawError::InvalidItemType(1))));
}

#[test]
fn index_entries_past_the_end_are_truncated() {
    let mut c = container();
    let n = c.bytes.len();
    c.bytes[n - 12..n - 8].copy_from_slice(&1000i32.to_le_bytes());
    assert!(matches!(open(&c.bytes), Err(McRawError::TruncatedData)));
}

#[test]
fn negative_index_count_is_refused_by_the_checked_form() {
    let mut c = container();
    let n = c.bytes.len();
    c.bytes[n - 12..n - 8].copy_from_slice(&(-1i32).to_le_bytes());
    assert!(Decoder::from_mmap_checked(map_exact(&c.bytes)).is_none());
}

#[test]
fn missing_width_is_reported() {
    let mut c = container();
    let at = find(&c.bytes, r#""width":16"#);
    c.bytes[at + 1] = b'W';
    let d = open(&c.bytes).unwrap();
    match d.load_frame(1000) {
        Err(McRawError::DecompressionFailed(s)) => assert_eq!(s, "missing width"),
        other => panic!("unexpected {:?}", other.map(|p| p.0)),
    }
    assert!(d.load_frame(2000).is_ok());
}

#[test]
fn missing_height_is_reported() {
    let mut c = container();
    let at = find(&c.bytes, r#""height":1,"compressionType":6}"#);
    c.bytes[at + 1] = b'H';
    let d = open(&c.bytes).unwrap();
    match d.load_frame(2000) {
        Err(McRawError::DecompressionFailed(s)) => assert_eq!(s, "missing height"),
        other => panic!("unexpected {:?}", other.map(|p| p.0)),
    }
}

#[test]
fn unknown_compression_type_is_rejected() {
    let mut c = container();
    let at = find(&c.bytes, r#""compressionType":6"#);
    c.bytes[at + 18] = b'5';
    let d = open(&c.bytes).unwrap();
    assert!(matches!(d.load_frame(2000), Err(McRawError::InvalidCompressionType(5))));
}

#[test]
fn bad_frame_json_is_a_parse_error() {
    let mut c = container();
    let at = find(&c.bytes, r#"{"width":16"#);
    c.bytes[at] = b'[';
    let d = open(&c.bytes).unwrap();
    assert!(matches!(d.load_frame(1000), Err(McRawError::MetadataParse(_))));
    assert!(matches!(d.load_frame_metadata(1000), Err(McRawError::MetadataParse(_))));
}

#[test]
fn frame_offset_past_the_end_is_truncated() {
    let mut c = container();
    let n = c.bytes.len();
    // The first index entry (timestamp 2000) points past the end.
    let index_at = i64::from_le_bytes(c.bytes[n - 8..n].try_into().unwrap()) as usize;
    c.bytes[index_at..index_at + 8].copy_from_slice(&(n as i64 + 5).to_le_bytes());
    let d = open(&c.bytes).unwrap();
    assert!(matches!(d.load_frame(2000), Err(McRawError::TruncatedData)));
    assert!(d.load_frame(1000).is_ok());
}

#[test]
fn container_without_frames_has_no_audio() {
    let mut v = b"MOTION ".to_vec();
    v.push(3);
    item(&mut v, 3, 2);
    v.extend_from_slice(b"{}");
    item(&mut v, 0, 16);
    v.extend_from_slice(&INDEX_MAGIC_NUMBER.to_le_bytes());
    v.extend_from_slice(&0i32.to_le_bytes());
    v.extend_from_slice(&0i64.to_le_bytes());
    let d = open(&v).unwrap();
    assert!(d.frame_timestamps().is_empty());
    assert!(d.load_audio().unwrap().is_empty());
    assert_eq!(d.audio_sample_rate_hz(), 0);
}

#[test]
fn frame_metadata_agrees_with_load_frame() {
    let c = container();
    let d = open(&c.bytes).unwrap();
    for ts in d.frame_timestamps() {
        let (_, meta) = d.load_frame(ts).unwrap();
        assert_eq!(meta, d.load_frame_metadata(ts).unwrap());
    }
    let expected: serde_json::Value =
        serde_json::from_str(r#"{"width":16,"height":1,"compressionType":6}"#).unwrap();
    assert_eq!(d.load_frame_metadata(1000).unwrap(), expected);
}

#[test]
fn container_metadata_is_the_parsed_item() {
    let c = container();
    let d = open(&c.bytes).unwrap();
    let expected: serde_json::Value =
        serde_json::from_str(r#"{"extraData":{"audioSampleRate":48000,"audioChannels":2}}"#).unwrap();
    assert_eq!(*d.container_metadata(), expected);
}
