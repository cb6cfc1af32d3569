use lib::block::{blocks_high, blocks_wide, extract_blocks};

#[test]
fn blocks_wide_exact_multiple() {
    assert_eq!(blocks_wide(16), 2);
    assert_eq!(blocks_wide(8), 1);
    assert_eq!(blocks_wide(64), 8);
}

#[test]
fn blocks_wide_non_multiple() {
    assert_eq!(blocks_wide(1), 1);
    assert_eq!(blocks_wide(9), 2);
    assert_eq!(blocks_wide(15), 2);
    assert_eq!(blocks_wide(17), 3);
}

#[test]
fn blocks_high_values() {
    assert_eq!(blocks_high(8), 1);
    assert_eq!(blocks_high(7), 1);
    assert_eq!(blocks_high(9), 2);
}

#[test]
fn blocks_wide_of_zero_and_maximum() {
    assert_eq!(blocks_wide(0), 0);
    assert_eq!(blocks_wide(u32::MAX), 536870912);
}

#[test]
fn extract_single_block_level_shift() {
    let plane = vec![200u8; 64];
    let blocks = extract_blocks(&plane, 8, 8);
    assert_eq!(blocks.len(), 1);
    for &val in &blocks[0] {
        assert_eq!(val, 72);
    }
}

#[test]
fn extract_level_shift_zero() {
    let plane = vec![128u8; 64];
    let blocks = extract_blocks(&plane, 8, 8);
    assert_eq!(blocks.len(), 1);
    for &val in &blocks[0] {
        assert_eq!(val, 0);
    }
}

#[test]
fn extract_level_shift_range() {
    let plane = vec![0u8; 64];
    let blocks = extract_blocks(&plane, 8, 8);
    assert_eq!(blocks[0][0], -128);

    let plane = vec![255u8; 64];
    let blocks = extract_blocks(&plane, 8, 8);
    assert_eq!(blocks[0][0], 127);
}

#[test]
fn extract_multiple_blocks() {
    let plane = vec![100u8; 16 * 8];
    let blocks = extract_blocks(&plane, 16, 8);
    assert_eq!(blocks.len(), 2);
}

#[test]
fn extract_non_multiple_of_8_pads_by_replication() {
    let mut plane = vec![0u8; 25];
    plane[4 * 5 + 4] = 200;

    let blocks = extract_blocks(&plane, 5, 5);
    assert_eq!(blocks.len(), 1);

    let shifted_200 = 200i16 - 128;
    let shifted_0 = 0i16 - 128;

    assert_eq!(blocks[0][4 * 8 + 4], shifted_200);
    assert_eq!(blocks[0][4 * 8 + 5], shifted_200);
    assert_eq!(blocks[0][5 * 8 + 4], shifted_200);
    assert_eq!(blocks[0][7 * 8 + 7], shifted_200);
    assert_eq!(blocks[0][0], shifted_0);
}

#[test]
fn extract_block_count_non_multiple() {
    let plane = vec![128u8; 13 * 11];
    let blocks = extract_blocks(&plane, 13, 11);
    assert_eq!(blocks.len(), 4);
}

#[test]
fn extract_blocks_are_in_raster_order() {
    let mut plane = vec![0u8; 16 * 16];
    for y in 0..16 {
        for x in 0..16 {
            plane[y * 16 + x] = ((y / 8) * 2 + x / 8) as u8 * 10;
        }
    }
    let blocks = extract_blocks(&plane, 16, 16);
    assert_eq!(blocks.len(), 4);
    for b in 0..4 {
        assert_eq!(blocks[b][0], (b as i16) * 10 - 128);
        assert_eq!(blocks[b][63], (b as i16) * 10 - 128);
    }
}

#[test]
fn plane_without_samples_has_no_blocks() {
    assert!(extract_blocks(&[], 0, 5).is_empty());
    assert!(extract_blocks(&[], 7, 0).is_empty());
    assert!(extract_blocks(&[], 0, 0).is_empty());
}
