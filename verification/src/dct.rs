//! Forward discrete cosine transform (T.81 §A.3.3) in fixed point.
//!
//! The 2-D transform is separable: a 1-D 8-point transform of every row,
//! then of every column. The 1-D transform is the AAN (Arai, Agui,
//! Nakajima) butterfly with cosine constants scaled by 2^13. Row results
//! keep 2 extra bits of precision; the column pass removes them together
//! with the 1/8 normalisation, so the DC coefficient of a block is 8 times
//! its mean sample.
//!
//! Multiplied out, each butterfly output is a linear combination of the 8
//! inputs with the integer weights of `dct_weight`, followed by a rounding
//! shift. The contracts are stated in that form.
use vstd::arithmetic::power2::*;
use vstd::prelude::*;

use crate::block::Block8x8;

verus! {

/// Number of fractional bits in the cosine constants.
const CONST_BITS: u32 = 13;

/// Extra precision bits carried from the row pass to the column pass.
const PASS1_BITS: u32 = 2;

/// The weight of input j in output k of the fixed-point 1-D transform:
/// about 2^13 * sqrt(2) * C_k * cos((2j + 1) k pi / 16), with C_0 = 1/sqrt(2)
/// and C_k = 1 otherwise, as the AAN butterfly computes it.
#[verifier::opaque]
pub open spec fn dct_weight(k: int, j: int) -> int {
    if k == 0 {
        8192
    } else if k == 1 {
        seq![11363, 9633, 6437, 2260, -2260, -6437, -9633, -11363int][j]
    } else if k == 2 {
        seq![10703, 4433, -4433, -10703, -10703, -4433, 4433, 10703int][j]
    } else if k == 3 {
        seq![9633, -2259, -11362, -6436, 6436, 11362, 2259, -9633int][j]
    } else if k == 4 {
        seq![8192, -8192, -8192, 8192, 8192, -8192, -8192, 8192int][j]
    } else if k == 5 {
        seq![6437, -11362, 2261, 9633, -9633, -2261, 11362, -6437int][j]
    } else if k == 6 {
        seq![4433, -10704, 10704, -4433, -4433, 10704, -10704, 4433int][j]
    } else {
        seq![2260, -6436, 9633, -11363, 11363, -9633, 6436, -2260int][j]
    }
}

/// Output k of the 1-D transform of d0..d7 before rounding.
pub open spec fn dct_sum(k: int, d0: int, d1: int, d2: int, d3: int, d4: int, d5: int, d6: int, d7: int) -> int {
    dct_weight(k, 0) * d0 + dct_weight(k, 1) * d1 + dct_weight(k, 2) * d2 + dct_weight(k, 3) * d3
        + dct_weight(k, 4) * d4 + dct_weight(k, 5) * d5 + dct_weight(k, 6) * d6 + dct_weight(k, 7)
        * d7
}

/// x / 2^n rounded to the nearest integer, halves upward.
pub open spec fn round_shift(x: int, n: nat) -> int {
    (x + pow2(n) as int / 2) / (pow2(n) as int)
}

/// Coefficient k of row r after the row pass (scaled by 2^2).
pub open spec fn row_value(block: Seq<i16>, r: int, k: int) -> int {
    let b = r * 8;
    round_shift(
        dct_sum(
            k,
            block[b] as int,
            block[b + 1] as int,
            block[b + 2] as int,
            block[b + 3] as int,
            block[b + 4] as int,
            block[b + 5] as int,
            block[b + 6] as int,
            block[b + 7] as int,
        ),
        11,
    )
}

/// DCT coefficient (v, u) of a block: the column transform of the row-pass
/// values, rounded by 2^18 (2^13 for the constants, 2^2 for the row pass,
/// 2^3 for the 1/8 normalisation).
pub open spec fn fdct_value(block: Seq<i16>, v: int, u: int) -> int {
    round_shift(
        dct_sum(
            v,
            row_value(block, 0, u),
            row_value(block, 1, u),
            row_value(block, 2, u),
            row_value(block, 3, u),
            row_value(block, 4, u),
            row_value(block, 5, u),
            row_value(block, 6, u),
            row_value(block, 7, u),
        ),
        18,
    )
}

/// Descale a fixed-point value by `n` bits with rounding:
/// `(x + 2^(n-1)) >> n`.
fn descale(x: i64, n: u32) -> (r: i64)
    requires
        n == 5 || n == 11 || n == 18,
        -0x1000_0000_0000 <= x <= 0x1000_0000_0000,
    ensures
        r == round_shift(x as int, n as nat),
{
    let half: i64 = 1i64 << (n - 1);
    proof {
        let m: u32 = (n - 1) as u32;
        if n == 5 {
            assert(1i64 << m == 16) by (bit_vector)
                requires
                    m == 4,
            ;
        } else if n == 11 {
            assert(1i64 << m == 1024) by (bit_vector)
                requires
                    m == 10,
            ;
        } else {
            assert(1i64 << m == 131072) by (bit_vector)
                requires
                    m == 17,
            ;
        }
    }
    let t: i64 = x + half;
    let r = t >> n;
    proof {
        lemma2_to64();
        if n == 5 {
            assert(t >> n == t / 32) by (bit_vector)
                requires
                    n == 5,
            ;
        } else if n == 11 {
            assert(t >> n == t / 2048) by (bit_vector)
                requires
                    n == 11,
            ;
        } else {
            assert(t >> n == t / 262144) by (bit_vector)
                requires
                    n == 18,
            ;
        }
    }
    r
}

/// `dct_sum` with the weights written out.
proof fn lemma_dct_sum_expanded(d0: int, d1: int, d2: int, d3: int, d4: int, d5: int, d6: int, d7: int)
    ensures
        dct_sum(0, d0, d1, d2, d3, d4, d5, d6, d7) == 8192 * (d0 + d1 + d2 + d3 + d4 + d5 + d6 + d7),
        dct_sum(1, d0, d1, d2, d3, d4, d5, d6, d7) == 11363 * d0 + 9633 * d1 + 6437 * d2 + 2260 * d3
            - 2260 * d4 - 6437 * d5 - 9633 * d6 - 11363 * d7,
        dct_sum(2, d0, d1, d2, d3, d4, d5, d6, d7) == 10703 * d0 + 4433 * d1 - 4433 * d2 - 10703 * d3
            - 10703 * d4 - 4433 * d5 + 4433 * d6 + 10703 * d7,
        dct_sum(3, d0, d1, d2, d3, d4, d5, d6, d7) == 9633 * d0 - 2259 * d1 - 11362 * d2 - 6436 * d3
            + 6436 * d4 + 11362 * d5 + 2259 * d6 - 9633 * d7,
        dct_sum(4, d0, d1, d2, d3, d4, d5, d6, d7) == 8192 * (d0 - d1 - d2 + d3 + d4 - d5 - d6 + d7),
        dct_sum(5, d0, d1, d2, d3, d4, d5, d6, d7) == 6437 * d0 - 11362 * d1 + 2261 * d2 + 9633 * d3
            - 9633 * d4 - 2261 * d5 + 11362 * d6 - 6437 * d7,
        dct_sum(6, d0, d1, d2, d3, d4, d5, d6, d7) == 4433 * d0 - 10704 * d1 + 10704 * d2 - 4433 * d3
            - 4433 * d4 + 10704 * d5 - 10704 * d6 + 4433 * d7,
        dct_sum(7, d0, d1, d2, d3, d4, d5, d6, d7) == 2260 * d0 - 6436 * d1 + 9633 * d2 - 11363 * d3
            + 11363 * d4 - 9633 * d5 + 6436 * d6 - 2260 * d7,
{
    reveal(dct_weight);
}

/// Output k of the 1-D transform of the 8 values of `d`, before rounding.
pub open spec fn vector_sum(d: Seq<i64>, k: int) -> int {
    dct_sum(k, d[0] as int, d[1] as int, d[2] as int, d[3] as int, d[4] as int, d[5] as int, d[6] as int, d[7] as int)
}

/// Output k of the AAN butterfly on `d`, as the butterfly forms it.
spec fn aan_output(d: Seq<i64>, k: int) -> int {
    let (d0, d1, d2, d3) = (d[0] as int, d[1] as int, d[2] as int, d[3] as int);
    let (d4, d5, d6, d7) = (d[4] as int, d[5] as int, d[6] as int, d[7] as int);
    let (tmp0, tmp1, tmp2, tmp3) = (d0 + d7, d1 + d6, d2 + d5, d3 + d4);
    let (tmp4, tmp5, tmp6, tmp7) = (d3 - d4, d2 - d5, d1 - d6, d0 - d7);
    let (tmp10, tmp11, tmp12, tmp13) = (tmp0 + tmp3, tmp1 + tmp2, tmp0 - tmp3, tmp1 - tmp2);
    let (z1, z2, z3, z4) = (tmp4 + tmp7, tmp5 + tmp6, tmp4 + tmp6, tmp5 + tmp7);
    let z5 = (z3 + z4) * 9633;
    if k == 0 {
        tmp10 + tmp11
    } else if k == 4 {
        tmp10 - tmp11
    } else if k == 2 {
        (tmp12 + tmp13) * 4433 + tmp12 * 6270
    } else if k == 6 {
        (tmp12 + tmp13) * 4433 - tmp13 * 15137
    } else if k == 7 {
        tmp4 * 2446 - z1 * 7373 + (-(z3 * 16069) + z5)
    } else if k == 5 {
        tmp5 * 16819 - z2 * 20995 + (-(z4 * 3196) + z5)
    } else if k == 3 {
        tmp6 * 25172 - z2 * 20995 + (-(z3 * 16069) + z5)
    } else {
        tmp7 * 12299 - z1 * 7373 + (-(z4 * 3196) + z5)
    }
}

/// The butterfly computes the weighted sums of `dct_sum`; outputs 0 and 4
/// carry weights 1 where `dct_sum` has 8192.
proof fn lemma_aan_output(d: Seq<i64>)
    ensures
        8192 * aan_output(d, 0) == vector_sum(d, 0),
        8192 * aan_output(d, 4) == vector_sum(d, 4),
        aan_output(d, 1) == vector_sum(d, 1),
        aan_output(d, 2) == vector_sum(d, 2),
        aan_output(d, 3) == vector_sum(d, 3),
        aan_output(d, 5) == vector_sum(d, 5),
        aan_output(d, 6) == vector_sum(d, 6),
        aan_output(d, 7) == vector_sum(d, 7),
{
    lemma_dct_sum_expanded(d[0] as int, d[1] as int, d[2] as int, d[3] as int, d[4] as int, d[5] as int, d[6] as int, d[7] as int);
}

/// The AAN butterfly of one 8-point vector: outputs 0 and 4 are the plain
/// sums (weights +-1), the others the weighted sums of `dct_sum`, all before
/// rounding.
#[verifier::rlimit(100)]
fn butterfly(d: &[i64; 8]) -> (t: [i64; 8])
    requires
        forall|j: int| 0 <= j < 8 ==> -0x40_0000 <= #[trigger] d[j] <= 0x40_0000,
    ensures
        forall|k: int| 0 <= k < 8 ==> #[trigger] t[k] == aan_output(d@, k),
        -0x200_0000 <= t[0] <= 0x200_0000,
        -0x200_0000 <= t[4] <= 0x200_0000,
        forall|k: int| 0 <= k < 8 ==> -0x400_0000_0000 <= #[trigger] t[k] <= 0x400_0000_0000,
{
    let d0 = d[0];
    let d1 = d[1];
    let d2 = d[2];
    let d3 = d[3];
    let d4 = d[4];
    let d5 = d[5];
    let d6 = d[6];
    let d7 = d[7];

    assert(-0x40_0000 <= d0 <= 0x40_0000 && -0x40_0000 <= d7 <= 0x40_0000);
    let tmp0 = d0 + d7;
    let tmp7 = d0 - d7;
    let tmp1 = d1 + d6;
    let tmp6 = d1 - d6;
    let tmp2 = d2 + d5;
    let tmp5 = d2 - d5;
    let tmp3 = d3 + d4;
    let tmp4 = d3 - d4;

    // Even part
    let tmp10 = tmp0 + tmp3;
    let tmp12 = tmp0 - tmp3;
    let tmp11 = tmp1 + tmp2;
    let tmp13 = tmp1 - tmp2;

    let t0 = tmp10 + tmp11;
    let t4 = tmp10 - tmp11;
    let z1 = (tmp12 + tmp13) * 4433;  // 0.541196100 * 2^13
    let t2 = z1 + tmp12 * 6270;  // 0.765366865 * 2^13
    let t6 = z1 - tmp13 * 15137;  // 1.847759065 * 2^13

    // Odd part
    let z1 = tmp4 + tmp7;
    let z2 = tmp5 + tmp6;
    let z3 = tmp4 + tmp6;
    let z4 = tmp5 + tmp7;
    let z5 = (z3 + z4) * 9633;  // 1.175875602 * 2^13

    let tmp4 = tmp4 * 2446;  // 0.298631336 * 2^13
    let tmp5 = tmp5 * 16819;  // 2.053119869 * 2^13
    let tmp6 = tmp6 * 25172;  // 3.072711026 * 2^13
    let tmp7 = tmp7 * 12299;  // 1.501321110 * 2^13
    let z1 = -(z1 * 7373);  // 0.899976223 * 2^13
    let z2 = -(z2 * 20995);  // 2.562915447 * 2^13
    let z3 = -(z3 * 16069) + z5;  // 1.961570560 * 2^13
    let z4 = -(z4 * 3196) + z5;  // 0.390180644 * 2^13

    let t7 = tmp4 + z1 + z3;
    let t5 = tmp5 + z2 + z4;
    let t3 = tmp6 + z2 + z3;
    let t1 = tmp7 + z1 + z4;
    [t0, t1, t2, t3, t4, t5, t6, t7]
}

/// `round_shift` by 11, 5 and 18 bits in plain numbers.
proof fn lemma_round_shift_values(x: int)
    ensures
        round_shift(x, 11) == (x + 1024) / 2048,
        round_shift(x, 5) == (x + 16) / 32,
        round_shift(x, 18) == (x + 131072) / 262144,
{
    lemma2_to64();
}

/// Coefficients of sums that are multiples of 8192: shifting by 11 bits
/// gives 4 times the sum exactly, shifting by 18 bits equals shifting the
/// plain sum by 5 bits.
proof fn lemma_first_outputs(s: int)
    ensures
        round_shift(8192 * s, 11) == 4 * s,
        round_shift(8192 * s, 18) == round_shift(s, 5),
{
    lemma_round_shift_values(8192 * s);
    lemma_round_shift_values(s);
    vstd::arithmetic::div_mod::lemma_fundamental_div_mod_converse(8192 * s + 1024, 2048, 4 * s, 1024);
    let q = (s + 16) / 32;
    let r = (s + 16) % 32;
    assert(s + 16 == 32 * q + r);
    vstd::arithmetic::div_mod::lemma_fundamental_div_mod_converse(8192 * s + 131072, 262144, q, 8192 * r);
}

/// Weighted sums of 16-bit samples stay within 2^32 (each weight is at
/// most 11363 in magnitude).
proof fn lemma_row_sums_bounded(d: Seq<i64>)
    requires
        d.len() == 8,
        forall|j: int| 0 <= j < 8 ==> -32768 <= #[trigger] d[j] <= 32767,
    ensures
        forall|k: int| 0 <= k < 8 ==> -0x1_0000_0000 <= #[trigger] vector_sum(d, k) <= 0x1_0000_0000,
{
    let (d0, d1, d2, d3) = (d[0] as int, d[1] as int, d[2] as int, d[3] as int);
    let (d4, d5, d6, d7) = (d[4] as int, d[5] as int, d[6] as int, d[7] as int);
    lemma_dct_sum_expanded(d0, d1, d2, d3, d4, d5, d6, d7);
    assert(-32768 <= d0 <= 32767 && -32768 <= d1 <= 32767 && -32768 <= d2 <= 32767 && -32768 <= d3 <= 32767);
    assert(-32768 <= d4 <= 32767 && -32768 <= d5 <= 32767 && -32768 <= d6 <= 32767 && -32768 <= d7 <= 32767);
}

/// Rounding a value within 2^32 by 11 bits stays within 2^21 + 1.
proof fn lemma_round_shift_11_bound(x: int)
    requires
        -0x1_0000_0000 <= x <= 0x1_0000_0000,
    ensures
        -0x20_0001 <= round_shift(x, 11) <= 0x20_0001,
{
    lemma_round_shift_values(x);
}

/// Row pass of row `row`: its 8 coefficients, scaled up by 2^PASS1_BITS.
fn row_pass(block: &Block8x8, row: usize) -> (out: [i64; 8])
    requires
        row < 8,
    ensures
        forall|k: int| 0 <= k < 8 ==> #[trigger] out[k] == row_value(block@, row as int, k),
        forall|k: int| 0 <= k < 8 ==> -0x20_0001 <= #[trigger] out[k] <= 0x20_0001,
{
    let b = row * 8;
    let d: [i64; 8] = [
        block[b] as i64, block[b + 1] as i64, block[b + 2] as i64, block[b + 3] as i64,
        block[b + 4] as i64, block[b + 5] as i64, block[b + 6] as i64, block[b + 7] as i64,
    ];
    let t = butterfly(&d);
    let shift = CONST_BITS - PASS1_BITS;
    let t0 = t[0];
    let t4 = t[4];
    let out: [i64; 8] = [
        t0 << PASS1_BITS,
        descale(t[1], shift),
        descale(t[2], shift),
        descale(t[3], shift),
        t4 << PASS1_BITS,
        descale(t[5], shift),
        descale(t[6], shift),
        descale(t[7], shift),
    ];
    proof {
        assert(t0 << 2u32 == t0 * 4) by (bit_vector)
            requires
                -0x200_0000 <= t0 <= 0x200_0000,
        ;
        assert(t4 << 2u32 == t4 * 4) by (bit_vector)
            requires
                -0x200_0000 <= t4 <= 0x200_0000,
        ;
        lemma_aan_output(d@);
        lemma_first_outputs(t0 as int);
        lemma_first_outputs(t4 as int);
        lemma_row_sums_bounded(d@);
        assert forall|k: int| 0 <= k < 8 implies #[trigger] out[k] == row_value(block@, row as int, k)
            && -0x20_0001 <= out[k] <= 0x20_0001 by {
            lemma_round_shift_11_bound(vector_sum(d@, k));
        }
    }
    out
}

/// Column pass of one column of row-pass values: its 8 coefficients.
fn column_pass(d: &[i64; 8]) -> (out: [i64; 8])
    requires
        forall|j: int| 0 <= j < 8 ==> -0x20_0001 <= #[trigger] d[j] <= 0x20_0001,
    ensures
        forall|k: int| 0 <= k < 8 ==> #[trigger] out[k] == round_shift(vector_sum(d@, k), 18),
{
    let t = butterfly(d);
    let pass2_descale = PASS1_BITS + 3;
    let col_shift = CONST_BITS + PASS1_BITS + 3;
    let out: [i64; 8] = [
        descale(t[0], pass2_descale),
        descale(t[1], col_shift),
        descale(t[2], col_shift),
        descale(t[3], col_shift),
        descale(t[4], pass2_descale),
        descale(t[5], col_shift),
        descale(t[6], col_shift),
        descale(t[7], col_shift),
    ];
    proof {
        lemma_aan_output(d@);
        lemma_first_outputs(t[0] as int);
        lemma_first_outputs(t[4] as int);
    }
    out
}

/// Compute the forward DCT of an 8*8 block of level-shifted samples.
///
/// Coefficient (v, u), at index v * 8 + u, is `fdct_value(block, v, u)`
/// taken to 16 bits: a row pass, then a column pass, each the fixed-point
/// 1-D transform of `dct_weight` with rounding.
pub fn fdct(block: &Block8x8) -> (result: Block8x8)
    ensures
        forall|v: int, u: int| 0 <= v < 8 && 0 <= u < 8 ==> #[trigger] result[v * 8 + u] == fdct_value(block@, v, u) as i16,
{
    // Pass 1: transform each row; results are scaled up by 2^PASS1_BITS.
    let mut workspace = [[0i64; 8]; 8];
    let mut row: usize = 0;
    while row < 8
        invariant
            row <= 8,
            forall|r: int, k: int| 0 <= r < row && 0 <= k < 8 ==> #[trigger] workspace[r][k] == row_value(block@, r, k),
            forall|r: int, k: int| 0 <= r < row && 0 <= k < 8 ==> -0x20_0001 <= #[trigger] workspace[r][k] <= 0x20_0001,
        decreases 8 - row,
    {
        workspace[row] = row_pass(block, row);
        row = row + 1;
    }

    // Pass 2: transform each column; results are descaled by
    // 2^(PASS1_BITS + 3), the 3 bits being the 1/8 normalisation.
    let mut result: Block8x8 = [0i16; 64];
    let mut col: usize = 0;
    while col < 8
        invariant
            col <= 8,
            forall|r: int, k: int| 0 <= r < 8 && 0 <= k < 8 ==> #[trigger] workspace[r][k] == row_value(block@, r, k),
            forall|r: int, k: int| 0 <= r < 8 && 0 <= k < 8 ==> -0x20_0001 <= #[trigger] workspace[r][k] <= 0x20_0001,
            forall|v: int, u: int| 0 <= v < 8 && 0 <= u < col ==> #[trigger] result[v * 8 + u] == fdct_value(block@, v, u) as i16,
        decreases 8 - col,
    {
        let d: [i64; 8] = [
            workspace[0][col], workspace[1][col], workspace[2][col], workspace[3][col],
            workspace[4][col], workspace[5][col], workspace[6][col], workspace[7][col],
        ];
        let out = column_pass(&d);
        proof {
            assert forall|v: int| 0 <= v < 8 implies #[trigger] out[v] == fdct_value(block@, v, col as int) by {
                assert(vector_sum(d@, v) == dct_sum(v, row_value(block@, 0, col as int), row_value(block@, 1, col as int),
                    row_value(block@, 2, col as int), row_value(block@, 3, col as int), row_value(block@, 4, col as int),
                    row_value(block@, 5, col as int), row_value(block@, 6, col as int), row_value(block@, 7, col as int)));
            }
        }
        let mut k: usize = 0;
        while k < 8
            invariant
                k <= 8,
                col < 8,
                forall|v: int| 0 <= v < 8 ==> #[trigger] out[v] == fdct_value(block@, v, col as int),
                forall|v: int, u: int| 0 <= v < 8 && 0 <= u < col ==> #[trigger] result[v * 8 + u] == fdct_value(block@, v, u) as i16,
                forall|v: int| 0 <= v < k ==> #[trigger] result[v * 8 + col] == fdct_value(block@, v, col as int) as i16,
            decreases 8 - k,
        {
            result[k * 8 + col] = out[k] as i16;
            k = k + 1;
        }
        col = col + 1;
    }
    result
}

/// Weighted sums of values bounded by `b` are bounded by 8 * 11363 * b.
proof fn lemma_dct_sum_bound(k: int, b: int, d0: int, d1: int, d2: int, d3: int, d4: int, d5: int, d6: int, d7: int)
    requires
        0 <= k < 8,
        -b <= d0 <= b && -b <= d1 <= b && -b <= d2 <= b && -b <= d3 <= b,
        -b <= d4 <= b && -b <= d5 <= b && -b <= d6 <= b && -b <= d7 <= b,
    ensures
        -90904 * b <= dct_sum(k, d0, d1, d2, d3, d4, d5, d6, d7) <= 90904 * b,
{
    lemma_dct_sum_expanded(d0, d1, d2, d3, d4, d5, d6, d7);
    if k == 0 {
    } else if k == 1 {
    } else if k == 2 {
    } else if k == 3 {
    } else if k == 4 {
    } else if k == 5 {
    } else if k == 6 {
    } else {
    }
}

/// For level-shifted samples (-128..=127) every coefficient fits in 16 bits,
/// so `fdct` returns `fdct_value` itself.
pub proof fn lemma_fdct_fits_16_bits(block: Seq<i16>)
    requires
        block.len() == 64,
        forall|i: int| 0 <= i < 64 ==> -128 <= #[trigger] block[i] <= 127,
    ensures
        forall|v: int, u: int| 0 <= v < 8 && 0 <= u < 8 ==> -32768 <= #[trigger] fdct_value(block, v, u) <= 32767,
{
    assert forall|r: int, k: int| 0 <= r < 8 && 0 <= k < 8 implies -6000 <= #[trigger] row_value(block, r, k) <= 6000 by {
        let b = r * 8;
        assert(0 <= b && b + 7 < 64) by (nonlinear_arith)
            requires
                0 <= r < 8,
                b == r * 8,
        ;
        assert(-128 <= block[b] && block[b] <= 127 && -128 <= block[b + 1] && block[b + 1] <= 127);
        assert(-128 <= block[b + 2] && block[b + 2] <= 127 && -128 <= block[b + 3] && block[b + 3] <= 127);
        assert(-128 <= block[b + 4] && block[b + 4] <= 127 && -128 <= block[b + 5] && block[b + 5] <= 127);
        assert(-128 <= block[b + 6] && block[b + 6] <= 127 && -128 <= block[b + 7] && block[b + 7] <= 127);
        lemma_dct_sum_bound(k, 128, block[b] as int, block[b + 1] as int, block[b + 2] as int, block[b + 3] as int,
            block[b + 4] as int, block[b + 5] as int, block[b + 6] as int, block[b + 7] as int);
        lemma_round_shift_values(dct_sum(k, block[b] as int, block[b + 1] as int, block[b + 2] as int, block[b + 3] as int,
            block[b + 4] as int, block[b + 5] as int, block[b + 6] as int, block[b + 7] as int));
    }
    assert forall|v: int, u: int| 0 <= v < 8 && 0 <= u < 8 implies -32768 <= #[trigger] fdct_value(block, v, u) <= 32767 by {
        let (w0, w1, w2, w3) = (row_value(block, 0, u), row_value(block, 1, u), row_value(block, 2, u), row_value(block, 3, u));
        let (w4, w5, w6, w7) = (row_value(block, 4, u), row_value(block, 5, u), row_value(block, 6, u), row_value(block, 7, u));
        lemma_dct_sum_bound(v, 6000, w0, w1, w2, w3, w4, w5, w6, w7);
        lemma_round_shift_values(dct_sum(v, w0, w1, w2, w3, w4, w5, w6, w7));
    }
}

/// A flat block (every sample equal to `s`) has DC coefficient 8 * s and
/// all 63 AC coefficients zero.
pub proof fn lemma_flat_block(block: Seq<i16>, s: i16)
    requires
        block.len() == 64,
        forall|i: int| 0 <= i < 64 ==> #[trigger] block[i] == s,
    ensures
        fdct_value(block, 0, 0) == 8 * s,
        forall|v: int, u: int| 0 <= v < 8 && 0 <= u < 8 && (v != 0 || u != 0) ==> #[trigger] fdct_value(block, v, u) == 0,
{
    let x = s as int;
    lemma_dct_sum_expanded(x, x, x, x, x, x, x, x);
    lemma_round_shift_values(0);
    lemma_first_outputs(8 * x);
    assert forall|r: int, k: int| 0 <= r < 8 && 0 <= k < 8 implies #[trigger] row_value(block, r, k) == if k == 0 { 32 * x } else { 0 } by {
        let b = r * 8;
        assert(0 <= b && b + 7 < 64) by (nonlinear_arith)
            requires
                0 <= r < 8,
                b == r * 8,
        ;
        assert(block[b] == s && block[b + 1] == s && block[b + 2] == s && block[b + 3] == s);
        assert(block[b + 4] == s && block[b + 5] == s && block[b + 6] == s && block[b + 7] == s);
    }
    let c = 32 * x;
    lemma_dct_sum_expanded(c, c, c, c, c, c, c, c);
    lemma_dct_sum_expanded(0, 0, 0, 0, 0, 0, 0, 0);
    lemma_first_outputs(8 * c);
    lemma_round_shift_values(8 * c);
    assert(row_value(block, 0, 0) == c && row_value(block, 1, 0) == c && row_value(block, 2, 0) == c && row_value(block, 3, 0) == c);
    assert(row_value(block, 4, 0) == c && row_value(block, 5, 0) == c && row_value(block, 6, 0) == c && row_value(block, 7, 0) == c);
    assert(fdct_value(block, 0, 0) == 8 * x);
    assert forall|v: int, u: int| 0 <= v < 8 && 0 <= u < 8 && (v != 0 || u != 0) implies #[trigger] fdct_value(block, v, u) == 0 by {
        if u == 0 {
            assert(row_value(block, 0, 0) == c && row_value(block, 1, 0) == c && row_value(block, 2, 0) == c && row_value(block, 3, 0) == c);
            assert(row_value(block, 4, 0) == c && row_value(block, 5, 0) == c && row_value(block, 6, 0) == c && row_value(block, 7, 0) == c);
        } else {
            assert(row_value(block, 0, u) == 0 && row_value(block, 1, u) == 0 && row_value(block, 2, u) == 0 && row_value(block, 3, u) == 0);
            assert(row_value(block, 4, u) == 0 && row_value(block, 5, u) == 0 && row_value(block, 6, u) == 0 && row_value(block, 7, u) == 0);
        }
    }
}

/// The DC coefficient of level-shifted samples (-128..=127) lies in
/// -1024..=1016: it is the sum of the 64 samples divided by 8, rounded.
pub proof fn lemma_dc_range(block: Seq<i16>)
    requires
        block.len() == 64,
        forall|i: int| 0 <= i < 64 ==> -128 <= #[trigger] block[i] <= 127,
    ensures
        -1024 <= fdct_value(block, 0, 0) <= 1016,
{
    assert forall|r: int| 0 <= r < 8 implies -4096 <= #[trigger] row_value(block, r, 0) <= 4064 by {
        let b = r * 8;
        assert(0 <= b && b + 7 < 64) by (nonlinear_arith)
            requires
                0 <= r < 8,
                b == r * 8,
        ;
        let (d0, d1, d2, d3) = (block[b] as int, block[b + 1] as int, block[b + 2] as int, block[b + 3] as int);
        let (d4, d5, d6, d7) = (block[b + 4] as int, block[b + 5] as int, block[b + 6] as int, block[b + 7] as int);
        assert(-128 <= d0 <= 127 && -128 <= d1 <= 127 && -128 <= d2 <= 127 && -128 <= d3 <= 127);
        assert(-128 <= d4 <= 127 && -128 <= d5 <= 127 && -128 <= d6 <= 127 && -128 <= d7 <= 127);
        lemma_dct_sum_expanded(d0, d1, d2, d3, d4, d5, d6, d7);
        lemma_first_outputs(d0 + d1 + d2 + d3 + d4 + d5 + d6 + d7);
    }
    let (w0, w1, w2, w3) = (row_value(block, 0, 0), row_value(block, 1, 0), row_value(block, 2, 0), row_value(block, 3, 0));
    let (w4, w5, w6, w7) = (row_value(block, 4, 0), row_value(block, 5, 0), row_value(block, 6, 0), row_value(block, 7, 0));
    lemma_dct_sum_expanded(w0, w1, w2, w3, w4, w5, w6, w7);
    let total = w0 + w1 + w2 + w3 + w4 + w5 + w6 + w7;
    lemma_first_outputs(total);
    lemma_round_shift_values(total);
}

} // verus!
