use motioncam_decoder::raw::{decode, decode_checked};
use motioncam_decoder::raw_legacy::{decode_legacy, decode_legacy_checked};
use motioncam_decoder::{raw_decode, raw_decode_legacy, McRawError};

fn le32(v: u32) -> [u8; 4] {
    v.to_le_bytes()
}

/// A type 7 frame of `enc_w` x 4 whose 64 block widths are all `bits`,
/// followed by `pixels` and the two metadata sections.
fn raw_frame(enc_w: u32, bits: u8, reference: u16, pixels: &[u8]) -> Vec<u8> {
    let bits_off = 16 + pixels.len() as u32;
    let refs_off = bits_off + 6;
    let mut v = Vec::new();
    v.extend_from_slice(&le32(enc_w));
    v.extend_from_slice(&le32(4));
    v.extend_from_slice(&le32(bits_off));
    v.extend_from_slice(&le32(refs_off));
    v.extend_from_slice(pixels);
    // Block widths: 64 entries, one 0-bit block of reference `bits`.
    v.extend_from_slice(&le32(64));
    v.extend_from_slice(&[0x00, bits]);
    // References: 64 entries, one 0-bit block of reference `reference`.
    v.extend_from_slice(&le32(64));
    v.extend_from_slice(&[(reference >> 8) as u8, (reference & 0xFF) as u8]);
    v
}

#[test]
fn raw_zero_bit_blocks_give_the_reference() {
    let input = raw_frame(1024, 0, 5, &[]);
    let mut out = vec![0u16; 4096];
    assert_eq!(raw_decode(&mut out, 1024, 4, &input).unwrap(), 4096);
    assert!(out.iter().all(|&x| x == 5));
}

#[test]
fn raw_one_bit_blocks_add_to_the_reference() {
    let input = raw_frame(1024, 1, 0x123, &[0xFF; 512]);
    let mut out = vec![0u16; 4096];
    assert_eq!(decode(&mut out, 1024, 4, &input).unwrap(), 4096);
    assert!(out.iter().all(|&x| x == 0x124));
}

#[test]
fn raw_one_bit_block_pattern() {
    // Only the first byte of each 8-byte block group is 1: bit plane 0 of
    // lane 0, so sample 0 of each 64-sample block is 1.
    let mut pixels = vec![0u8; 512];
    for b in 0..64 {
        pixels[8 * b] = 1;
    }
    let input = raw_frame(1024, 1, 0, &pixels);
    let mut out = vec![0u16; 4096];
    assert_eq!(decode(&mut out, 1024, 4, &input).unwrap(), 4096);
    // Row 0 interleaves blocks 0 and 1 of each tile: x and x + 1 hold
    // sample 0 of each, the rest 0.
    for x in (0..1024).step_by(64) {
        assert_eq!(out[x], 1);
        assert_eq!(out[x + 1], 1);
        assert_eq!(out[x + 2], 0);
        assert_eq!(out[1024 + x], 1);
        assert_eq!(out[2048 + x], 0);
    }
    assert_eq!(out.iter().filter(|&&x| x == 1).count(), 64);
}

#[test]
fn raw_narrow_output_keeps_the_left_columns() {
    let input = raw_frame(1024, 0, 9, &[]);
    let mut out = vec![0u16; 4 * 1000];
    assert_eq!(decode(&mut out, 1000, 4, &input).unwrap(), 4000);
    assert!(out.iter().all(|&x| x == 9));
}

#[test]
fn raw_short_input_is_truncated() {
    let mut out = vec![0u16; 16];
    assert!(matches!(decode(&mut out, 4, 4, &[0u8; 15]), Err(McRawError::TruncatedData)));
}

#[test]
fn raw_bad_header_is_reported() {
    let mut input = raw_frame(1024, 0, 5, &[]);
    input[0..4].copy_from_slice(&le32(100));
    let mut out = vec![0u16; 400];
    match decode(&mut out, 100, 4, &input) {
        Err(McRawError::DecompressionFailed(s)) => assert_eq!(s, "invalid raw header"),
        other => panic!("unexpected {:?}", other),
    }
    // Narrower encoding than the requested width.
    let input = raw_frame(1024, 0, 5, &[]);
    let mut out = vec![0u16; 4 * 2048];
    assert!(matches!(
        decode(&mut out, 2048, 4, &input),
        Err(McRawError::DecompressionFailed(_))
    ));
}

#[test]
fn raw_bad_block_width_is_rejected() {
    let input = raw_frame(1024, 0, 5, &[]);
    let mut bad = input.clone();
    // Block widths metadata header: 0-bit block whose reference is 17.
    let at = bad.len() - 12;
    bad[at + 4] = 0x00;
    bad[at + 5] = 17;
    let mut out = vec![0u16; 4096];
    assert!(matches!(
        decode_checked(&mut out, 1024, 4, &bad),
        Some(Err(McRawError::InvalidCompressionType(17)))
    ));
}

#[test]
fn raw_panicking_input_is_refused_by_the_checked_form() {
    // Block-width metadata with fewer than 64 entries and a 0-bit header.
    let mut v = Vec::new();
    v.extend_from_slice(&le32(64));
    v.extend_from_slice(&le32(4));
    v.extend_from_slice(&le32(16));
    v.extend_from_slice(&le32(16));
    v.extend_from_slice(&le32(4));
    v.extend_from_slice(&[0x00, 0x00]);
    let mut out = vec![0u16; 256];
    assert!(decode_checked(&mut out, 64, 4, &v).is_none());
}

/// A legacy row of 32 samples: an 8-bit block holding `0..16` with
/// reference 16, then a 0-bit block with reference 3.
fn legacy_row() -> Vec<u8> {
    let mut v = vec![0x80, 0x10];
    v.extend(0u8..16);
    v.extend_from_slice(&[0x00, 0x03]);
    v.push(0);
    v
}

#[test]
fn legacy_row_interleaves_the_two_blocks() {
    let input = legacy_row();
    let mut out = vec![0u16; 32];
    assert_eq!(raw_decode_legacy(&mut out, 32, 1, &input).unwrap(), 32);
    for i in 0..16 {
        assert_eq!(out[2 * i], 16 + i as u16);
        assert_eq!(out[2 * i + 1], 3);
    }
}

#[test]
fn legacy_returns_width_times_height() {
    let input = legacy_row();
    let mut out = vec![0u16; 40];
    assert_eq!(decode_legacy(&mut out, 20, 2, &input).unwrap(), 40);
}

#[test]
fn legacy_exhausted_input_repeats_the_last_row() {
    let input = legacy_row();
    let mut out = vec![0u16; 64];
    assert_eq!(decode_legacy(&mut out, 32, 2, &input).unwrap(), 64);
    assert_eq!(out[..32], out[32..]);
}

#[test]
fn legacy_empty_input_gives_zeros() {
    let mut out = vec![7u16; 10];
    assert_eq!(decode_legacy(&mut out, 5, 2, &[]).unwrap(), 10);
    assert!(out.iter().all(|&x| x == 0));
}

#[test]
fn legacy_one_bit_block_is_msb_first() {
    // One-bit block: bytes 0b1000_0001, 0b0100_0000 give samples
    // 1,0,0,0,0,0,0,1, 0,1,0,0,0,0,0,0.
    let mut v = vec![0x10, 0x00, 0b1000_0001, 0b0100_0000];
    v.extend_from_slice(&[0x00, 0x00]);
    v.push(0);
    let mut out = vec![0u16; 32];
    assert_eq!(decode_legacy(&mut out, 32, 1, &v).unwrap(), 32);
    let block0: Vec<u16> = (0..16).map(|i| out[2 * i]).collect();
    assert_eq!(block0, vec![1, 0, 0, 0, 0, 0, 0, 1, 0, 1, 0, 0, 0, 0, 0, 0]);
}

#[test]
fn legacy_output_too_short_is_refused_by_the_checked_form() {
    let input = legacy_row();
    let mut out = vec![0u16; 31];
    assert!(decode_legacy_checked(&mut out, 32, 1, &input).is_none());
}

use motioncam_decoder::decoder::{decode_frame_checked, metadata_fields, MetadataFields};

fn fields(width: Option<u64>, height: Option<u64>, comp: Option<i64>) -> MetadataFields {
    MetadataFields {
        width,
        height,
        compression_type: comp,
        audio_sample_rate: None,
        audio_channels: None,
    }
}

#[test]
fn frame_fields_choose_the_decoder() {
    let legacy = legacy_row();
    let pixels = decode_frame_checked(&legacy, fields(Some(32), Some(1), Some(6))).unwrap().unwrap();
    assert_eq!(pixels.len(), 32);
    assert_eq!(pixels[0], 16);
    assert_eq!(pixels[1], 3);
    let raw = raw_frame(1024, 0, 5, &[]);
    let pixels = decode_frame_checked(&raw, fields(Some(1024), Some(4), Some(7))).unwrap().unwrap();
    assert_eq!(pixels.len(), 4096);
    assert!(pixels.iter().all(|&x| x == 5));
}

#[test]
fn frame_fields_default_to_type_seven() {
    let raw = raw_frame(1024, 0, 5, &[]);
    let pixels = decode_frame_checked(&raw, fields(Some(1024), Some(4), None)).unwrap().unwrap();
    assert!(pixels.iter().all(|&x| x == 5));
}

#[test]
fn frame_fields_errors() {
    let legacy = legacy_row();
    match decode_frame_checked(&legacy, fields(None, Some(1), Some(6))) {
        Some(Err(McRawError::DecompressionFailed(s))) => assert_eq!(s, "missing width"),
        _ => panic!("expected a missing width"),
    }
    match decode_frame_checked(&legacy, fields(Some(32), None, Some(6))) {
        Some(Err(McRawError::DecompressionFailed(s))) => assert_eq!(s, "missing height"),
        _ => panic!("expected a missing height"),
    }
    assert!(matches!(
        decode_frame_checked(&legacy, fields(Some(32), Some(1), Some(-3))),
        Some(Err(McRawError::InvalidCompressionType(-3)))
    ));
    assert!(decode_frame_checked(&legacy, fields(Some(u64::MAX), Some(2), Some(6))).is_none());
}

#[test]
fn metadata_fields_read_the_keys() {
    let v: serde_json::Value = serde_json::from_str(
        r#"{"width":4000,"height":3000,"compressionType":6,"extraData":{"audioSampleRate":48000,"audioChannels":2}}"#,
    )
    .unwrap();
    let f = metadata_fields(&v);
    assert_eq!(f.width, Some(4000));
    assert_eq!(f.height, Some(3000));
    assert_eq!(f.compression_type, Some(6));
    assert_eq!(f.audio_sample_rate, Some(48000));
    assert_eq!(f.audio_channels, Some(2));
    let v: serde_json::Value = serde_json::from_str(r#"{"width":-1,"height":"3","extraData":[]}"#).unwrap();
    let f = metadata_fields(&v);
    assert_eq!(f.width, None);
    assert_eq!(f.height, None);
    assert_eq!(f.compression_type, None);
    assert_eq!(f.audio_sample_rate, None);
    assert_eq!(f.audio_channels, None);
}
