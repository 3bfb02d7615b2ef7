use motioncam_decoder::container::ItemType;
use motioncam_decoder::error::read_le_bytes;
use motioncam_decoder::simd_portable::{decode_header, load_u8_to_u16x8, store_u16x8};
use motioncam_decoder::McRawError;

#[test]
fn item_type_from_each_code() {
    let expected = [
        ItemType::BufferIndex,
        ItemType::BufferIndexData,
        ItemType::Buffer,
        ItemType::Metadata,
        ItemType::AudioIndex,
        ItemType::AudioData,
        ItemType::AudioDataMetadata,
    ];
    for (code, want) in expected.iter().enumerate() {
        let got = ItemType::try_from(code as u32).unwrap();
        assert_eq!(got, *want);
    }
}

#[test]
fn item_type_code_roundtrip() {
    for code in 0u32..7 {
        assert_eq!(ItemType::try_from(code).unwrap().as_u32(), code);
    }
}

#[test]
fn item_type_unknown_code_is_rejected() {
    assert!(matches!(ItemType::try_from(7u32), Err(McRawError::InvalidItemType(7))));
    assert!(matches!(
        ItemType::try_from(0xFFFF_FFFFu32),
        Err(McRawError::InvalidItemType(0xFFFF_FFFF))
    ));
}

#[test]
fn read_le_bytes_reads_the_window() {
    let data = [1u8, 2, 3, 4, 5, 6];
    let a: [u8; 4] = read_le_bytes(&data, 2).unwrap();
    assert_eq!(a, [3, 4, 5, 6]);
    assert_eq!(u32::from_le_bytes(a), 0x0605_0403);
}

#[test]
fn read_le_bytes_past_the_end_is_truncated() {
    let data = [1u8, 2, 3, 4, 5, 6];
    assert!(matches!(read_le_bytes::<4>(&data, 3), Err(McRawError::TruncatedData)));
    assert!(matches!(read_le_bytes::<8>(&data, 0), Err(McRawError::TruncatedData)));
}

#[test]
fn decode_header_splits_bits_and_reference() {
    assert_eq!(decode_header(&[0xAB, 0xCD]).unwrap(), (0x0A, 0x0BCD));
    assert_eq!(decode_header(&[0x00, 0x00, 0x99]).unwrap(), (0, 0));
    assert_eq!(decode_header(&[0xFF, 0xFF]).unwrap(), (15, 4095));
}

#[test]
fn decode_header_bounds() {
    for b0 in 0u8..=255 {
        let (bits, reference) = decode_header(&[b0, 0xFF]).unwrap();
        assert!(bits <= 15);
        assert!(reference <= 4095);
    }
}

#[test]
fn decode_header_short_input_is_truncated() {
    assert!(matches!(decode_header(&[0x12]), Err(McRawError::TruncatedData)));
    assert!(matches!(decode_header(&[]), Err(McRawError::TruncatedData)));
}

#[test]
fn load_then_store_widens_bytes() {
    let src = [1u8, 2, 3, 250, 5, 6, 7, 8, 99];
    let v = load_u8_to_u16x8(&src).unwrap();
    let mut dst = [0xEEEEu16; 12];
    store_u16x8(&mut dst, 2, v).unwrap();
    assert_eq!(dst, [0xEEEE, 0xEEEE, 1, 2, 3, 250, 5, 6, 7, 8, 0xEEEE, 0xEEEE]);
}

#[test]
fn load_short_input_is_truncated() {
    assert!(matches!(load_u8_to_u16x8(&[1, 2, 3, 4, 5, 6, 7]), Err(McRawError::TruncatedData)));
}

#[test]
fn store_short_output_is_truncated_and_unchanged() {
    let v = load_u8_to_u16x8(&[9u8; 8]).unwrap();
    let mut dst = [7u16; 10];
    assert!(matches!(store_u16x8(&mut dst, 3, v), Err(McRawError::TruncatedData)));
    assert_eq!(dst, [7u16; 10]);
}
