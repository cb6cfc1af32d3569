use lib::block::Block8x8;
use lib::quantize::{
    quantize_block, scale_quant_table, QuantTable, STD_CHROMINANCE_QUANT, STD_LUMINANCE_QUANT, ZIG_ZAG,
};

#[test]
fn scale_quality_50_is_identity() {
    let scaled = scale_quant_table(&STD_LUMINANCE_QUANT, 50);
    assert_eq!(scaled, STD_LUMINANCE_QUANT);
}

#[test]
fn scale_quality_100_gives_all_ones() {
    let scaled = scale_quant_table(&STD_LUMINANCE_QUANT, 100);
    for &v in &scaled {
        assert_eq!(v, 1, "quality 100 should yield all-1 table");
    }
}

#[test]
fn scale_quality_1_gives_maximum_steps() {
    let scaled = scale_quant_table(&STD_LUMINANCE_QUANT, 1);
    for &v in &scaled {
        assert!((1..=255).contains(&v));
    }
    assert_eq!(scaled[2], 255);
}

#[test]
fn scale_never_zero() {
    for q in 1..=100 {
        let scaled = scale_quant_table(&STD_LUMINANCE_QUANT, q);
        for (i, &v) in scaled.iter().enumerate() {
            assert!(v >= 1, "quality={}, index={}, value={}", q, i, v);
        }
    }
}

#[test]
fn scale_quality_formula_values() {
    // quality 75: scale = 50; (16 * 50 + 50) / 100 = 8, (11 * 50 + 50) / 100 = 6.
    let scaled = scale_quant_table(&STD_LUMINANCE_QUANT, 75);
    assert_eq!(scaled[0], 8);
    assert_eq!(scaled[1], 6);
    // quality 25: scale = 200; (17 * 200 + 50) / 100 = 34.
    let scaled = scale_quant_table(&STD_CHROMINANCE_QUANT, 25);
    assert_eq!(scaled[0], 34);
    // quality 0 counts as 1.
    assert_eq!(scale_quant_table(&STD_LUMINANCE_QUANT, 0), scale_quant_table(&STD_LUMINANCE_QUANT, 1));
}

#[test]
fn quant_table_zigzag_reorder() {
    let mut natural = [0u16; 64];
    for (i, val) in natural.iter_mut().enumerate() {
        *val = i as u16 + 1;
    }
    let qt = QuantTable::new(&natural);
    for k in 0..64 {
        let expected = natural[ZIG_ZAG[k] as usize];
        assert_eq!(qt.zigzag_values[k], expected, "zig-zag position {}", k);
    }
}

#[test]
fn quantize_dc_coefficient() {
    let mut dct_block: Block8x8 = [0i16; 64];
    dct_block[0] = 100;
    let mut natural = [1u16; 64];
    natural[0] = 10;
    let qt = QuantTable::new(&natural);
    let quantized = quantize_block(&dct_block, &qt);
    assert_eq!(quantized[0], 10);
}

#[test]
fn quantize_rounds_correctly() {
    let mut dct_block: Block8x8 = [0i16; 64];
    dct_block[0] = 7;
    let mut natural = [1u16; 64];
    natural[0] = 5;
    let qt = QuantTable::new(&natural);
    let quantized = quantize_block(&dct_block, &qt);
    assert_eq!(quantized[0], 1);
}

#[test]
fn quantize_negative_values() {
    let mut dct_block: Block8x8 = [0i16; 64];
    dct_block[0] = -7;
    let mut natural = [1u16; 64];
    natural[0] = 5;
    let qt = QuantTable::new(&natural);
    let quantized = quantize_block(&dct_block, &qt);
    assert_eq!(quantized[0], -1);
}

#[test]
fn quantize_zeros_out_small_ac() {
    let mut dct_block: Block8x8 = [0i16; 64];
    dct_block[1] = 3;
    let mut natural = [1u16; 64];
    natural[1] = 10;
    let qt = QuantTable::new(&natural);
    let quantized = quantize_block(&dct_block, &qt);
    let zz_pos = ZIG_ZAG.iter().position(|&z| z == 1).unwrap();
    assert_eq!(quantized[zz_pos], 0);
}

#[test]
fn quantize_halves_round_away_from_zero() {
    let mut dct_block: Block8x8 = [0i16; 64];
    dct_block[0] = 5;
    dct_block[1] = -5;
    dct_block[8] = 15;
    let mut natural = [10u16; 64];
    natural[8] = 2;
    let qt = QuantTable::new(&natural);
    let q = quantize_block(&dct_block, &qt);
    assert_eq!(q[0], 1);
    assert_eq!(q[1], -1);
    assert_eq!(q[2], 8);
}

#[test]
fn quantize_with_zero_step_saturates() {
    let mut dct_block: Block8x8 = [0i16; 64];
    dct_block[0] = 3;
    dct_block[1] = -3;
    let qt = QuantTable::new(&[0u16; 64]);
    let q = quantize_block(&dct_block, &qt);
    assert_eq!(q[0], 32767);
    assert_eq!(q[1], -32768);
    assert_eq!(q[2], 0);
}

#[test]
fn quantize_extremes_with_unit_step() {
    let mut dct_block: Block8x8 = [0i16; 64];
    dct_block[0] = i16::MIN;
    dct_block[1] = i16::MAX;
    let qt = QuantTable::new(&[1u16; 64]);
    let q = quantize_block(&dct_block, &qt);
    assert_eq!(q[0], i16::MIN);
    assert_eq!(q[1], i16::MAX);
}

#[test]
fn zigzag_table_is_bijection() {
    let mut seen = [false; 64];
    for &idx in &ZIG_ZAG {
        assert!(!seen[idx as usize], "duplicate index {}", idx);
        seen[idx as usize] = true;
    }
    for (i, &s) in seen.iter().enumerate() {
        assert!(s, "missing index {}", i);
    }
}

#[test]
fn zigzag_dc_is_first() {
    assert_eq!(ZIG_ZAG[0], 0);
}

#[test]
fn natural_values_accessor() {
    let qt = QuantTable::from_standard(&STD_LUMINANCE_QUANT, 50);
    let natural = qt.natural_values();
    assert_eq!(*natural, STD_LUMINANCE_QUANT);
}

#[test]
fn higher_quality_never_gives_a_larger_step() {
    for base in [&STD_LUMINANCE_QUANT, &STD_CHROMINANCE_QUANT] {
        for q1 in 0u8..=100 {
            let lo = scale_quant_table(base, q1);
            for q2 in q1..=100 {
                let hi = scale_quant_table(base, q2);
                for i in 0..64 {
                    assert!(hi[i] <= lo[i], "quality {} vs {} at {}", q1, q2, i);
                }
            }
        }
    }
}
