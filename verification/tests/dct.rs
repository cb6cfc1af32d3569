use lib::block::Block8x8;
use lib::dct::fdct;

/// Naive floating-point FDCT of T.81 §A.3.3, for comparison.
fn fdct_reference(block: &Block8x8) -> Block8x8 {
    let mut table = [[0.0f64; 8]; 8];
    for k in 0..8 {
        for n in 0..8 {
            table[k][n] = ((2 * k + 1) as f64 * n as f64 * std::f64::consts::PI / 16.0).cos();
        }
    }
    let c = |n: usize| if n == 0 { std::f64::consts::FRAC_1_SQRT_2 } else { 1.0 };
    let mut result: Block8x8 = [0i16; 64];
    for v in 0..8 {
        for u in 0..8 {
            let mut sum = 0.0f64;
            for y in 0..8 {
                for x in 0..8 {
                    sum += block[y * 8 + x] as f64 * table[x][u] * table[y][v];
                }
            }
            result[v * 8 + u] = (0.25 * c(u) * c(v) * sum).round() as i16;
        }
    }
    result
}

#[test]
fn fast_dct_matches_reference() {
    let block: Block8x8 = [
        -76, -73, -67, -62, -58, -67, -64, -55,
        -65, -69, -73, -38, -19, -43, -59, -56,
        -66, -69, -60, -15, 16, -24, -62, -55,
        -65, -70, -57, -6, 26, -22, -58, -59,
        -61, -67, -60, -24, -2, -40, -60, -58,
        -49, -63, -68, -58, -51, -60, -70, -53,
        -43, -57, -64, -69, -73, -67, -63, -45,
        -41, -49, -59, -60, -63, -52, -50, -34,
    ];
    let ref_result = fdct_reference(&block);
    let fast_result = fdct(&block);
    for i in 0..64 {
        let diff = (ref_result[i] as i32 - fast_result[i] as i32).abs();
        assert!(
            diff <= 1,
            "Mismatch at [{}] (row={}, col={}): ref={}, fast={}, diff={}",
            i, i / 8, i % 8, ref_result[i], fast_result[i], diff,
        );
    }
}

#[test]
fn dct_of_flat_block() {
    let block: Block8x8 = [42; 64];
    let result = fdct(&block);
    assert!((result[0] as i32 - 336).abs() <= 1, "DC: expected ~336, got {}", result[0]);
    for i in 1..64 {
        assert!(result[i].abs() <= 1, "AC[{}] should be ~0, got {}", i, result[i]);
    }
}

#[test]
fn flat_blocks_have_exact_dc_and_no_ac() {
    for s in [-128i16, -1, 0, 1, 42, 127] {
        let result = fdct(&[s; 64]);
        assert_eq!(result[0], 8 * s);
        assert!(result[1..].iter().all(|&c| c == 0));
    }
}

#[test]
fn dc_is_rounded_sum_over_eight() {
    let mut block: Block8x8 = [0; 64];
    block[0] = 100;
    block[9] = -20;
    // (80 + 4) / 8 rounded = 10
    assert_eq!(fdct(&block)[0], 10);
}

#[test]
fn extreme_blocks_have_exact_dc() {
    // Alternating extremes: 32 samples of 127 and 32 of -128, sum -32.
    let mut checkerboard: Block8x8 = [0; 64];
    let mut stripes: Block8x8 = [0; 64];
    for y in 0..8 {
        for x in 0..8 {
            checkerboard[y * 8 + x] = if (x + y) % 2 == 0 { 127 } else { -128 };
            stripes[y * 8 + x] = if x < 4 { 127 } else { -128 };
        }
    }
    assert_eq!(fdct(&checkerboard)[0], -4);
    assert_eq!(fdct(&stripes)[0], -4);
    assert_eq!(fdct(&[-128; 64])[0], -1024);
    assert_eq!(fdct(&[127; 64])[0], 1016);
}
