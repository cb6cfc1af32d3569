//! DCT coefficient quantization and zig-zag reordering (T.81 §A.3.4, §A.3.6).
//!
//! Each of the 64 DCT coefficients S is divided by its quantization step
//! size Q and rounded to the nearest integer; the quantized coefficients are
//! then read in zig-zag order (T.81 Figure A.6), from low to high frequency.
//!
//! The standard tables of T.81 Annex K (Tables K.1, K.2) are scaled by the
//! IJG quality formula.
use vstd::prelude::*;

use crate::block::Block8x8;

verus! {

/// Zig-zag scan order: `ZIG_ZAG[k]` is the natural-order index
/// (row * 8 + col) of the k-th coefficient in zig-zag sequence.
pub const ZIG_ZAG: [u8; 64] = [
     0,  1,  8, 16,  9,  2,  3, 10,
    17, 24, 32, 25, 18, 11,  4,  5,
    12, 19, 26, 33, 40, 48, 41, 34,
    27, 20, 13,  6,  7, 14, 21, 28,
    35, 42, 49, 56, 57, 50, 43, 36,
    29, 22, 15, 23, 30, 37, 44, 51,
    58, 59, 52, 45, 38, 31, 39, 46,
    53, 60, 61, 54, 47, 55, 62, 63,
];

/// Luminance quantization table (T.81 Table K.1), natural order.
pub const STD_LUMINANCE_QUANT: [u16; 64] = [
    16, 11, 10, 16, 24, 40, 51, 61,
    12, 12, 14, 19, 26, 58, 60, 55,
    14, 13, 16, 24, 40, 57, 69, 56,
    14, 17, 22, 29, 51, 87, 80, 62,
    18, 22, 37, 56, 68, 109, 103, 77,
    24, 35, 55, 64, 81, 104, 113, 92,
    49, 64, 78, 87, 103, 121, 120, 101,
    72, 92, 95, 98, 112, 100, 103, 99,
];

/// Chrominance quantization table (T.81 Table K.2), natural order.
pub const STD_CHROMINANCE_QUANT: [u16; 64] = [
    17, 18, 24, 47, 99, 99, 99, 99,
    18, 21, 26, 66, 99, 99, 99, 99,
    24, 26, 56, 99, 99, 99, 99, 99,
    47, 66, 99, 99, 99, 99, 99, 99,
    99, 99, 99, 99, 99, 99, 99, 99,
    99, 99, 99, 99, 99, 99, 99, 99,
    99, 99, 99, 99, 99, 99, 99, 99,
    99, 99, 99, 99, 99, 99, 99, 99,
];

/// The zig-zag position of each natural-order index, as drawn in T.81
/// Figure A.6.
pub open spec fn zigzag_position(i: int) -> int {
    seq![
         0,  1,  5,  6, 14, 15, 27, 28,
         2,  4,  7, 13, 16, 26, 29, 42,
         3,  8, 12, 17, 25, 30, 41, 43,
         9, 11, 18, 24, 31, 40, 44, 53,
        10, 19, 23, 32, 39, 45, 52, 54,
        20, 22, 33, 38, 46, 51, 55, 60,
        21, 34, 37, 47, 50, 56, 59, 61,
        35, 36, 48, 49, 57, 58, 62, 63int
    ][i]
}

/// `ZIG_ZAG` is a permutation of 0..64: it is the inverse of the mapping of
/// Figure A.6, so every coefficient is visited exactly once and the DC
/// coefficient comes first.
pub proof fn lemma_zig_zag_is_permutation()
    ensures
        forall|k: int| 0 <= k < 64 ==> ZIG_ZAG[k] < 64 && zigzag_position(ZIG_ZAG[k] as int) == k,
        forall|i: int| 0 <= i < 64 ==> ZIG_ZAG[zigzag_position(i)] == i,
        ZIG_ZAG[0] == 0,
{
}

/// The IJG scale factor of a quality: 5000 / q below 50, 200 - 2q from 50 on
/// (quality 0 counts as 1; qualities above 100 have no scale).
pub open spec fn quality_scale(quality: u8) -> int {
    let q: int = if quality < 1 { 1 } else { quality as int };
    if q < 50 { 5000int / q } else { 200 - 2 * q }
}

/// One scaled table entry: (base * scale + 50) / 100, clamped to 1..=255.
pub open spec fn scaled_entry(base: u16, quality: u8) -> u16 {
    let v = (base * quality_scale(quality) + 50) / 100;
    if v < 1 { 1 } else if v > 255 { 255 } else { v as u16 }
}

/// Scale a base quantization table by the IJG quality formula.
///
/// Each entry becomes `clamp((base[i] * scale + 50) / 100, 1, 255)` with
/// `scale = 5000 / q` for q < 50 and `200 - 2q` otherwise. Quality 50 keeps
/// the base table, quality 100 gives all ones.
pub fn scale_quant_table(base: &[u16; 64], quality: u8) -> (table: [u16; 64])
    requires
        quality <= 100,
    ensures
        forall|i: int| 0 <= i < 64 ==> table[i] == scaled_entry(base[i], quality),
{
    let q: u32 = if quality < 1 { 1 } else { quality as u32 };
    let scale: u32 = if q < 50 { 5000 / q } else { 200 - 2 * q };
    assert(scale == quality_scale(quality));
    assert(scale <= 5000) by {
        if q < 50 {
            vstd::arithmetic::div_mod::lemma_div_is_ordered_by_denominator(5000, 1, q as int);
        }
    }
    let mut table = [0u16; 64];
    let mut i: usize = 0;
    while i < 64
        invariant
            i <= 64,
            scale == quality_scale(quality),
            scale <= 5000,
            forall|j: int| 0 <= j < i ==> table[j] == scaled_entry(base[j], quality),
        decreases 64 - i,
    {
        let b: u32 = base[i] as u32;
        assert(b * scale <= 65535 * 5000) by (nonlinear_arith)
            requires
                b <= 65535,
                scale <= 5000,
        ;
        let val: u32 = (b * scale + 50) / 100;
        let entry: u16 = if val < 1 { 1 } else if val > 255 { 255 } else { val as u16 };
        table[i] = entry;
        i = i + 1;
    }
    table
}

/// A scaled quantization table, kept in natural order for quantizing and in
/// zig-zag order for the DQT marker segment.
#[derive(Debug, Clone)]
pub struct QuantTable {
    /// Quantization values in zig-zag order, as written to the DQT marker.
    pub zigzag_values: [u16; 64],
    /// Quantization values in natural (row-major) order, used to divide the
    /// DCT coefficients.
    pub natural_values: [u16; 64],
}

/// `zz` lists `natural` in zig-zag order.
pub open spec fn is_zigzag_of(zz: Seq<u16>, natural: Seq<u16>) -> bool {
    &&& zz.len() == 64
    &&& natural.len() == 64
    &&& forall|k: int| 0 <= k < 64 ==> #[trigger] zz[k] == natural[ZIG_ZAG[k] as int]
}

impl QuantTable {
    /// The quantization values in natural order.
    pub open spec fn natural(&self) -> Seq<u16> {
        self.natural_values@
    }

    /// The zig-zag values are the natural values in zig-zag order.
    pub open spec fn wf(&self) -> bool {
        is_zigzag_of(self.zigzag_values@, self.natural())
    }

    /// Create a table from values in natural (row-major) order; the zig-zag
    /// copy is computed here.
    pub fn new(natural_order: &[u16; 64]) -> (t: Self)
        ensures
            t.natural() == natural_order@,
            t.wf(),
    {
        proof {
            lemma_zig_zag_is_permutation();
        }
        let mut zigzag = [0u16; 64];
        let mut k: usize = 0;
        while k < 64
            invariant
                k <= 64,
                forall|j: int| 0 <= j < 64 ==> ZIG_ZAG[j] < 64,
                forall|j: int| 0 <= j < k ==> zigzag[j] == natural_order[ZIG_ZAG[j] as int],
            decreases 64 - k,
        {
            let idx: usize = ZIG_ZAG[k] as usize;
            zigzag[k] = natural_order[idx];
            k = k + 1;
        }
        QuantTable { zigzag_values: zigzag, natural_values: *natural_order }
    }

    /// Create a table by scaling a standard base table for a quality.
    pub fn from_standard(base: &[u16; 64], quality: u8) -> (t: Self)
        requires
            quality <= 100,
        ensures
            t.wf(),
            forall|i: int| 0 <= i < 64 ==> t.natural()[i] == scaled_entry(base[i], quality),
    {
        let scaled = scale_quant_table(base, quality);
        Self::new(&scaled)
    }

    /// The quantization values in natural (row-major) order.
    pub fn natural_values(&self) -> (v: &[u16; 64])
        ensures
            v@ == self.natural(),
    {
        &self.natural_values
    }
}

/// S / Q rounded to the nearest integer, halves away from zero. A zero step
/// saturates: positive coefficients give 32767, negative ones -32768, and a
/// zero coefficient gives 0.
pub open spec fn rounded_quotient(c: int, q: int) -> int {
    if q == 0 {
        if c > 0 { 32767 } else if c < 0 { -32768 } else { 0 }
    } else if c >= 0 {
        (2 * c + q) / (2 * q)
    } else {
        -((2 * (-c) + q) / (2 * q))
    }
}

/// Dividing a magnitude by a step of at least 1 and rounding never makes
/// it larger.
pub proof fn lemma_rounded_quotient_bound(m: int, q: int)
    requires
        0 <= m,
        1 <= q,
    ensures
        0 <= (2 * m + q) / (2 * q) <= m,
{
    assert((2 * m + q) / (2 * q) <= m) by (nonlinear_arith)
        requires
            0 <= m,
            1 <= q,
    {
        assert(2 * m + q < 2 * q * (m + 1));
        vstd::arithmetic::div_mod::lemma_div_by_multiple_is_strongly_ordered(
            2 * m + q, 2 * q * (m + 1), m + 1, 2 * q);
    }
    vstd::arithmetic::div_mod::lemma_div_pos_is_pos(2 * m + q, 2 * q);
}

/// Quantize one coefficient with one step size.
fn quantize_coefficient(c: i16, q: u16) -> (r: i16)
    ensures
        r == rounded_quotient(c as int, q as int),
{
    if q == 0 {
        if c > 0 { 32767 } else if c < 0 { -32768 } else { 0 }
    } else if c >= 0 {
        let m: u32 = c as u32;
        let n: u32 = (2 * m + q as u32) / (2 * q as u32);
        proof {
            lemma_rounded_quotient_bound(m as int, q as int);
        }
        n as i16
    } else {
        let m: u32 = (-(c as i32)) as u32;
        let n: u32 = (2 * m + q as u32) / (2 * q as u32);
        proof {
            lemma_rounded_quotient_bound(m as int, q as int);
        }
        (-(n as i32)) as i16
    }
}

/// Quantize a DCT block and reorder it into zig-zag sequence: element k is
/// the coefficient at natural index `ZIG_ZAG[k]` divided by its step size
/// and rounded to the nearest integer (halves away from zero).
pub fn quantize_block(dct_block: &Block8x8, table: &QuantTable) -> (quantized: [i16; 64])
    ensures
        forall|k: int| 0 <= k < 64 ==> #[trigger] quantized[k] == rounded_quotient(
            dct_block[ZIG_ZAG[k] as int] as int,
            table.natural()[ZIG_ZAG[k] as int] as int,
        ),
{
    proof {
        lemma_zig_zag_is_permutation();
    }
    let mut quantized = [0i16; 64];
    let mut k: usize = 0;
    while k < 64
        invariant
            k <= 64,
            forall|j: int| 0 <= j < 64 ==> ZIG_ZAG[j] < 64,
            forall|j: int| 0 <= j < k ==> #[trigger] quantized[j] == rounded_quotient(
                dct_block[ZIG_ZAG[j] as int] as int,
                table.natural()[ZIG_ZAG[j] as int] as int,
            ),
        decreases 64 - k,
    {
        let idx: usize = ZIG_ZAG[k] as usize;
        let q: u16 = table.natural_values()[idx];
        quantized[k] = quantize_coefficient(dct_block[idx], q);
        k = k + 1;
    }
    quantized
}

/// At quality 50 the scale factor is 100, so every base entry in 1..=255 is
/// kept unchanged.
pub proof fn lemma_quality_50_is_identity(base: u16)
    requires
        1 <= base <= 255,
    ensures
        scaled_entry(base, 50) == base,
{
    assert((base * 100 + 50) / 100 == base as int);
}

/// At quality 100 the scale factor is 0, so every entry is 1.
pub proof fn lemma_quality_100_is_all_ones(base: u16)
    ensures
        scaled_entry(base, 100) == 1,
{
    assert(quality_scale(100) == 0);
    assert(base * quality_scale(100) == 0);
}

/// Every scaled entry lies in 1..=255: no step size is zero, and each fits
/// the one byte that an 8-bit DQT entry has.
pub proof fn lemma_scaled_entry_range(base: u16, quality: u8)
    ensures
        1 <= scaled_entry(base, quality) <= 255,
{
}

/// A higher quality never has a larger scale factor.
pub proof fn lemma_quality_scale_decreasing(q1: u8, q2: u8)
    requires
        q1 <= q2 <= 100,
    ensures
        0 <= quality_scale(q2) <= quality_scale(q1),
{
    let a: int = if q1 < 1 { 1 } else { q1 as int };
    let b: int = if q2 < 1 { 1 } else { q2 as int };
    if b < 50 {
        vstd::arithmetic::div_mod::lemma_div_is_ordered_by_denominator(5000, a, b);
        vstd::arithmetic::div_mod::lemma_div_pos_is_pos(5000, b);
    } else if a < 50 {
        vstd::arithmetic::div_mod::lemma_div_is_ordered_by_denominator(5000, a, 49);
        assert(5000int / 49 == 102);
    }
}

/// Raising the quality never makes a scaled entry larger: the quantization
/// steps get finer or stay (for every base value and qualities 0..=100,
/// quality 0 acting as 1).
pub proof fn lemma_scaled_entry_monotonic(base: u16, q1: u8, q2: u8)
    requires
        q1 <= q2 <= 100,
    ensures
        scaled_entry(base, q2) <= scaled_entry(base, q1),
{
    lemma_quality_scale_decreasing(q1, q2);
    let s1 = quality_scale(q1);
    let s2 = quality_scale(q2);
    vstd::arithmetic::mul::lemma_mul_inequality(s2, s1, base as int);
    vstd::arithmetic::mul::lemma_mul_is_commutative(s2, base as int);
    vstd::arithmetic::mul::lemma_mul_is_commutative(s1, base as int);
    vstd::arithmetic::div_mod::lemma_div_is_ordered(base * s2 + 50, base * s1 + 50, 100);
}

} // verus!
