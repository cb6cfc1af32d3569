//! RGB to YCbCr conversion (CCIR 601 / BT.601, as JFIF 1.02 §4 assumes).
//!
//! ```text
//!   Y  =  0.299*R    + 0.587*G    + 0.114*B
//!   Cb = -0.16874*R  - 0.33126*G  + 0.5*B     + 128
//!   Cr =  0.5*R      - 0.41869*G  - 0.08131*B + 128
//! ```
//!
//! The coefficients are scaled by 2^16 and the sums rounded by a shift of
//! 16 bits; results are clamped to 0..=255.
use vstd::prelude::*;

verus! {

/// Bits of fractional precision in the fixed-point coefficients.
const FP_SHIFT: u32 = 16;

/// Rounding bias: 0.5 in fixed point.
const FP_HALF: i32 = 32768;

// Luminance coefficients: round(0.299, 0.587, 0.114 * 65536).
const YR: i32 = 19595;
const YG: i32 = 38470;
const YB: i32 = 7471;

// Blue-difference coefficients: round(-0.16874, -0.33126, 0.5 * 65536).
const CBR: i32 = -11059;
const CBG: i32 = -21709;
const CBB: i32 = 32768;

// Red-difference coefficients: round(0.5, -0.41869, -0.08131 * 65536).
const CRR: i32 = 32768;
const CRG: i32 = -27439;
const CRB: i32 = -5329;

/// `v` clamped to 0..=255.
pub open spec fn clamp_to_u8(v: int) -> u8 {
    if v < 0 { 0 } else if v > 255 { 255 } else { v as u8 }
}

/// The fixed-point weighted sum of a pixel with weights (wr, wg, wb),
/// rounded by 2^16.
pub open spec fn weighted(wr: int, wg: int, wb: int, r: u8, g: u8, b: u8) -> int {
    (wr * r + wg * g + wb * b + 32768) / 65536
}

/// Y of a pixel.
pub open spec fn spec_y(r: u8, g: u8, b: u8) -> u8 {
    clamp_to_u8(weighted(19595, 38470, 7471, r, g, b))
}

/// Cb of a pixel.
pub open spec fn spec_cb(r: u8, g: u8, b: u8) -> u8 {
    clamp_to_u8(weighted(-11059, -21709, 32768, r, g, b) + 128)
}

/// Cr of a pixel.
pub open spec fn spec_cr(r: u8, g: u8, b: u8) -> u8 {
    clamp_to_u8(weighted(32768, -27439, -5329, r, g, b) + 128)
}

/// Clamp an integer to 0..=255.
fn clamp_u8(v: i32) -> (r: u8)
    ensures
        r == clamp_to_u8(v as int),
{
    if v < 0 { 0 } else if v > 255 { 255 } else { v as u8 }
}

/// `(x + 2^15) >> 16` is the sum rounded by 2^16.
fn round_fixed(x: i32) -> (r: i32)
    requires
        -0x4000_0000 <= x <= 0x4000_0000,
    ensures
        r == (x + 32768) / 65536,
{
    let t: i32 = x + FP_HALF;
    let r = t >> FP_SHIFT;
    proof {
        assert(t >> 16u32 == t / 65536) by (bit_vector);
    }
    r
}

/// Convert one RGB pixel to `(Y, Cb, Cr)`.
pub fn rgb_to_ycbcr(r: u8, g: u8, b: u8) -> (out: (u8, u8, u8))
    ensures
        out == (spec_y(r, g, b), spec_cb(r, g, b), spec_cr(r, g, b)),
{
    let ri = r as i32;
    let gi = g as i32;
    let bi = b as i32;

    let y = round_fixed(YR * ri + YG * gi + YB * bi);
    let cb = round_fixed(CBR * ri + CBG * gi + CBB * bi);
    let cr = round_fixed(CRR * ri + CRG * gi + CRB * bi);

    (clamp_u8(y), clamp_u8(cb + 128), clamp_u8(cr + 128))
}

/// A gray pixel (R = G = B) keeps its value as Y and has no chrominance:
/// Cb = Cr = 128.
pub proof fn lemma_gray_has_no_chrominance(v: u8)
    ensures
        spec_y(v, v, v) == v,
        spec_cb(v, v, v) == 128,
        spec_cr(v, v, v) == 128,
{
    assert(weighted(19595, 38470, 7471, v, v, v) == v) by {
        vstd::arithmetic::div_mod::lemma_fundamental_div_mod_converse(65536 * v + 32768, 65536, v as int, 32768);
    }
    assert(weighted(-11059, -21709, 32768, v, v, v) == 0);
    assert(weighted(32768, -27439, -5329, v, v, v) == 0);
}

/// The three planes of an interleaved RGB buffer, one sample per pixel:
/// pixel p is bytes 3p, 3p + 1, 3p + 2.
pub open spec fn planes_of(rgb: Seq<u8>) -> (Seq<u8>, Seq<u8>, Seq<u8>) {
    let n = rgb.len() / 3;
    (
        Seq::new(n, |p: int| spec_y(rgb[3 * p], rgb[3 * p + 1], rgb[3 * p + 2])),
        Seq::new(n, |p: int| spec_cb(rgb[3 * p], rgb[3 * p + 1], rgb[3 * p + 2])),
        Seq::new(n, |p: int| spec_cr(rgb[3 * p], rgb[3 * p + 1], rgb[3 * p + 2])),
    )
}

/// Convert an interleaved RGB buffer to Y, Cb and Cr planes in row-major
/// order. Every complete R, G, B triple of the buffer gives one sample of
/// each plane; the dimensions only describe the layout.
pub fn rgb_to_ycbcr_planar(rgb: &[u8], width: u32, height: u32) -> (planes: (Vec<u8>, Vec<u8>, Vec<u8>))
    ensures
        (planes.0@, planes.1@, planes.2@) == planes_of(rgb@),
{
    let mut y_plane: Vec<u8> = Vec::new();
    let mut cb_plane: Vec<u8> = Vec::new();
    let mut cr_plane: Vec<u8> = Vec::new();
    let ghost target = planes_of(rgb@);

    let mut i: usize = 0;
    while rgb.len() - i > 2
        invariant
            i % 3 == 0,
            i <= rgb.len(),
            target == planes_of(rgb@),
            y_plane.len() == i / 3 && cb_plane.len() == i / 3 && cr_plane.len() == i / 3,
            i / 3 <= rgb.len() / 3,
            forall|p: int| 0 <= p < i / 3 ==> #[trigger] y_plane@[p] == target.0[p],
            forall|p: int| 0 <= p < i / 3 ==> #[trigger] cb_plane@[p] == target.1[p],
            forall|p: int| 0 <= p < i / 3 ==> #[trigger] cr_plane@[p] == target.2[p],
        decreases rgb.len() - i,
    {
        let (y, cb, cr) = rgb_to_ycbcr(rgb[i], rgb[i + 1], rgb[i + 2]);
        y_plane.push(y);
        cb_plane.push(cb);
        cr_plane.push(cr);
        i += 3;
    }
    assert(i / 3 == rgb.len() / 3);
    assert(y_plane@ == target.0);
    assert(cb_plane@ == target.1);
    assert(cr_plane@ == target.2);
    (y_plane, cb_plane, cr_plane)
}

/// A grayscale buffer is already the Y plane: it is copied unchanged.
pub fn grayscale_to_y_plane(gray: &[u8]) -> (y: Vec<u8>)
    ensures
        y@ == gray@,
{
    vstd::slice::slice_to_vec(gray)
}

} // verus!
