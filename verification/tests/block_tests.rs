use motioncam_decoder::raw::{decode, decode_checked};
use motioncam_decoder::raw_legacy::decode_legacy;

/// Bytes each type 7 block of a given width takes.
const RAW_BLOCK_BYTES: [usize; 17] = [0, 8, 16, 24, 32, 40, 48, 64, 64, 80, 80, 128, 128, 128, 128, 128, 128];

/// Bytes each legacy block of a given width takes.
const LEGACY_BLOCK_BYTES: [usize; 17] = [0, 2, 4, 6, 8, 10, 12, 14, 16, 18, 20, 32, 32, 32, 32, 32, 32];

/// A type 7 frame of 1024 x 4 whose 64 blocks all have width `bits`, the
/// bytes `block` and the reference `reference`.
fn raw_frame_of_blocks(bits: u8, block: &[u8], reference: u16) -> Vec<u8> {
    assert_eq!(block.len(), RAW_BLOCK_BYTES[bits as usize]);
    let pixels: Vec<u8> = (0..64).flat_map(|_| block.iter().copied()).collect();
    let bits_off = 16 + pixels.len() as u32;
    let mut v = Vec::new();
    v.extend_from_slice(&1024u32.to_le_bytes());
    v.extend_from_slice(&4u32.to_le_bytes());
    v.extend_from_slice(&bits_off.to_le_bytes());
    v.extend_from_slice(&(bits_off + 6).to_le_bytes());
    v.extend_from_slice(&pixels);
    v.extend_from_slice(&64u32.to_le_bytes());
    v.extend_from_slice(&[0x00, bits]);
    v.extend_from_slice(&64u32.to_le_bytes());
    v.extend_from_slice(&[(reference >> 8) as u8, (reference & 0xFF) as u8]);
    v
}

/// Decodes a frame made of 64 equal blocks and gives the block's 64
/// samples, after checking that every tile shows the same block.
fn decoded_block(bits: u8, block: &[u8]) -> Vec<u16> {
    let input = raw_frame_of_blocks(bits, block, 0);
    let mut out = vec![0u16; 4096];
    assert_eq!(decode(&mut out, 1024, 4, &input).unwrap(), 4096);
    let mut p = vec![0u16; 64];
    for j in 0..32 {
        p[j] = out[2 * j];
        p[32 + j] = out[2 * 1024 + 2 * j];
    }
    for r in 0..4 {
        for c in 0..1024 {
            let x = c % 64;
            assert_eq!(out[r * 1024 + c], p[(r / 2) * 32 + x / 2], "row {} column {}", r, c);
        }
    }
    p
}

fn with(len: usize, at: &[(usize, u8)]) -> Vec<u8> {
    let mut v = vec![0u8; len];
    for &(i, b) in at {
        v[i] = b;
    }
    v
}

fn only(p: &[u16], at: &[(usize, u16)]) {
    for (i, &x) in p.iter().enumerate() {
        let want = at.iter().find(|(k, _)| *k == i).map(|(_, v)| *v).unwrap_or(0);
        assert_eq!(x, want, "sample {}", i);
    }
}

#[test]
fn raw_all_ones_gives_the_largest_sample_of_each_width() {
    for bits in 1u8..=16 {
        let block = vec![0xFFu8; RAW_BLOCK_BYTES[bits as usize]];
        let want: u16 = match bits {
            1..=6 => (1u16 << bits) - 1,
            7 | 8 => 255,
            9 | 10 => 1023,
            _ => 65535,
        };
        let p = decoded_block(bits, &block);
        assert!(p.iter().all(|&x| x == want), "width {}", bits);
    }
}

#[test]
fn raw_two_bit_planes() {
    let p = decoded_block(2, &with(16, &[(0, 0b11_10_01_00), (8, 0b00_01_10_11)]));
    only(&p, &[(8, 1), (16, 2), (24, 3), (32, 3), (40, 2), (48, 1)]);
}

#[test]
fn raw_three_bit_layout() {
    let p = decoded_block(3, &with(24, &[(0, 0xFF)]));
    only(&p, &[(0, 7), (8, 7), (16, 3)]);
    let p = decoded_block(3, &with(24, &[(16, 0xFF)]));
    only(&p, &[(16, 4), (40, 4), (48, 7), (56, 7)]);
}

#[test]
fn raw_four_bit_nibbles() {
    let p = decoded_block(4, &with(32, &[(8, 0xA5)]));
    only(&p, &[(16, 5), (24, 0xA)]);
}

#[test]
fn raw_five_bit_layout() {
    let p = decoded_block(5, &with(40, &[(24, 0xFF)]));
    only(&p, &[(24, 31), (40, 24), (56, 8)]);
}

#[test]
fn raw_six_bit_layout() {
    let p = decoded_block(6, &with(48, &[(0, 0xFF)]));
    only(&p, &[(0, 63), (48, 3)]);
}

#[test]
fn raw_eight_bit_bytes() {
    let block: Vec<u8> = (0..64u32).map(|i| (i * 3 % 256) as u8).collect();
    for bits in [7u8, 8] {
        let p = decoded_block(bits, &block);
        for i in 0..64 {
            assert_eq!(p[i], block[i] as u16);
        }
    }
}

#[test]
fn raw_ten_bit_layout() {
    for bits in [9u8, 10] {
        let p = decoded_block(bits, &with(80, &[(32, 0xFF)]));
        only(&p, &[(0, 768), (8, 768), (16, 768), (24, 768)]);
        let p = decoded_block(bits, &with(80, &[(5, 0x42)]));
        only(&p, &[(5, 0x42)]);
    }
}

#[test]
fn raw_sixteen_bit_little_endian() {
    let block: Vec<u8> = (0..128u32).map(|i| i as u8).collect();
    for bits in 11u8..=16 {
        let p = decoded_block(bits, &block);
        for q in 0..8 {
            for j in 0..8 {
                let lo = (16 * q + 2 * j) as u16;
                assert_eq!(p[8 * q + j], lo | ((lo + 1) << 8));
            }
        }
    }
}

#[test]
fn raw_reference_overflow_is_refused_by_the_checked_form() {
    let input = raw_frame_of_blocks(16, &[0xFF; 128], 1);
    let mut out = vec![0u16; 4096];
    assert!(decode_checked(&mut out, 1024, 4, &input).is_none());
}

/// A legacy row of 32 samples: a block of width `bits` with the bytes
/// `block` and reference 0, then a zero-width block with reference 0.
fn legacy_block(bits: u8, block: &[u8]) -> Vec<u16> {
    assert_eq!(block.len(), LEGACY_BLOCK_BYTES[bits as usize]);
    let mut v = vec![bits << 4, 0];
    v.extend_from_slice(block);
    v.extend_from_slice(&[0x00, 0x00, 0x00]);
    let mut out = vec![0u16; 32];
    assert_eq!(decode_legacy(&mut out, 32, 1, &v).unwrap(), 32);
    for i in 0..16 {
        assert_eq!(out[2 * i + 1], 0);
    }
    (0..16).map(|i| out[2 * i]).collect()
}

#[test]
fn legacy_all_ones_gives_the_largest_sample_of_each_width() {
    for bits in 1u8..=15 {
        let block = vec![0xFFu8; LEGACY_BLOCK_BYTES[bits as usize]];
        let want: u16 = if bits <= 10 { (1u16 << bits) - 1 } else { 65535 };
        let p = legacy_block(bits, &block);
        assert!(p.iter().all(|&x| x == want), "width {}", bits);
    }
}

#[test]
fn legacy_msb_first_widths() {
    // Two bits: 11 10 01 00.
    let p = legacy_block(2, &[0b11_10_01_00, 0, 0, 0]);
    assert_eq!(p[..4], [3, 2, 1, 0]);
    // Three bits: 101 011 1.. across the first two bytes.
    let p = legacy_block(3, &[0b101_011_10, 0b1_000_000_0, 0, 0, 0, 0]);
    assert_eq!(p[..4], [5, 3, 5, 0]);
    // Four bits: high nibble first.
    let p = legacy_block(4, &[0xA5, 0, 0, 0, 0, 0, 0, 0]);
    assert_eq!(p[..2], [0xA, 0x5]);
    // Eight bits: the bytes.
    let block: Vec<u8> = (10u8..26).collect();
    let p = legacy_block(8, &block);
    assert_eq!(p, (10u16..26).collect::<Vec<u16>>());
    // Ten bits: 1111111111 0000000001 ...
    let p = legacy_block(10, &[0xFF, 0xC0, 0x00, 0x40, 0x00, 0, 0, 0, 0, 0, 0, 0, 0, 0, 0, 0, 0, 0, 0, 0]);
    assert_eq!(p[..3], [1023, 0, 16]);
    // Widths from 11 on: big-endian pairs.
    let mut block = vec![0u8; 32];
    block[0] = 0x12;
    block[1] = 0x34;
    let p = legacy_block(15, &block);
    assert_eq!(p[0], 0x1234);
}

#[test]
fn legacy_seven_bit_layout_reuses_one_byte_pair() {
    let p = legacy_block(7, &[0xFF, 0x00, 0, 0, 0, 0, 0, 0, 0, 0, 0, 0, 0, 0]);
    assert_eq!(p[..8], [127, 64, 96, 112, 120, 124, 126, 0]);
}

#[test]
fn legacy_nine_bit_second_sample_reads_the_first_byte() {
    let mut block = vec![0u8; 18];
    block[0] = 0x81;
    let p = legacy_block(9, &block);
    assert_eq!(p[0], 258);
    assert_eq!(p[1], 4);
}
