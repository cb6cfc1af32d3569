//! Chroma subsampling: downsampling of the Cb and Cr planes by the ratio of
//! the maximum sampling factors to theirs (T.81 §A.1.1).
//!
//! The filter is a box filter: each output sample is the rounded average of
//! the source samples in its cell; cells that extend past the plane's edge
//! average only the samples inside it.
use vstd::prelude::*;

use crate::types::Subsampling;

verus! {

/// ceil(n / d).
pub open spec fn ceil_div(n: int, d: int) -> int {
    (n + d - 1) / d
}

/// Sum of the samples of row `sy` at columns x0..x0 + n that lie inside
/// the plane's width.
pub open spec fn span_sum(plane: Seq<u8>, width: int, sy: int, x0: int, n: nat) -> int
    decreases n,
{
    if n == 0 {
        0
    } else {
        let sx = x0 + n - 1;
        span_sum(plane, width, sy, x0, (n - 1) as nat) + if sx < width { plane[sy * width + sx] as int } else { 0 }
    }
}

/// Number of columns x0..x0 + n inside the width.
pub open spec fn span_count(width: int, x0: int, n: nat) -> int
    decreases n,
{
    if n == 0 {
        0
    } else {
        span_count(width, x0, (n - 1) as nat) + if x0 + n - 1 < width { 1int } else { 0 }
    }
}

/// Sum of the samples of the cell at (x0, y0) of size hf * m inside the plane.
pub open spec fn cell_sum(plane: Seq<u8>, width: int, height: int, x0: int, y0: int, hf: nat, m: nat) -> int
    decreases m,
{
    if m == 0 {
        0
    } else {
        let sy = y0 + m - 1;
        cell_sum(plane, width, height, x0, y0, hf, (m - 1) as nat) + if sy < height {
            span_sum(plane, width, sy, x0, hf)
        } else {
            0
        }
    }
}

/// Number of samples of the cell at (x0, y0) of size hf * m inside the plane.
pub open spec fn cell_count(width: int, height: int, x0: int, y0: int, hf: nat, m: nat) -> int
    decreases m,
{
    if m == 0 {
        0
    } else {
        cell_count(width, height, x0, y0, hf, (m - 1) as nat) + if y0 + m - 1 < height {
            span_count(width, x0, hf)
        } else {
            0
        }
    }
}

/// Rounded average: (sum + count / 2) / count.
pub open spec fn rounded_average(sum: int, count: int) -> int {
    (sum + count / 2) / count
}

/// Output sample (ox, oy) of a plane downsampled by (hf, vf).
pub open spec fn cell_average(plane: Seq<u8>, width: int, height: int, hf: nat, vf: nat, ox: int, oy: int) -> int {
    rounded_average(
        cell_sum(plane, width, height, ox * hf, oy * vf, hf, vf),
        cell_count(width, height, ox * hf, oy * vf, hf, vf),
    )
}

/// A plane downsampled by integer factors: the plane itself for factors
/// (1, 1), otherwise ceil(width / hf) * ceil(height / vf) cell averages in
/// raster order.
pub open spec fn downsampled(plane: Seq<u8>, width: int, height: int, hf: nat, vf: nat) -> Seq<u8> {
    if hf == 1 && vf == 1 {
        plane
    } else {
        let ow = ceil_div(width, hf as int);
        let oh = ceil_div(height, vf as int);
        Seq::new((ow * oh) as nat, |i: int| cell_average(plane, width, height, hf, vf, i % ow, i / ow) as u8)
    }
}

proof fn lemma_span_bounds(plane: Seq<u8>, width: int, sy: int, x0: int, n: nat)
    ensures
        0 <= span_sum(plane, width, sy, x0, n) <= 255 * span_count(width, x0, n),
        0 <= span_count(width, x0, n) <= n,
        n >= 1 && x0 < width ==> span_count(width, x0, n) >= 1,
    decreases n,
{
    if n > 0 {
        lemma_span_bounds(plane, width, sy, x0, (n - 1) as nat);
    }
}

proof fn lemma_cell_bounds(plane: Seq<u8>, width: int, height: int, x0: int, y0: int, hf: nat, m: nat)
    ensures
        0 <= cell_sum(plane, width, height, x0, y0, hf, m) <= 255 * cell_count(width, height, x0, y0, hf, m),
        0 <= cell_count(width, height, x0, y0, hf, m) <= hf * m,
        m >= 1 && hf >= 1 && x0 < width && y0 < height ==> cell_count(width, height, x0, y0, hf, m) >= 1,
    decreases m,
{
    if m > 0 {
        lemma_cell_bounds(plane, width, height, x0, y0, hf, (m - 1) as nat);
        lemma_span_bounds(plane, width, y0 + m - 1, x0, hf);
        assert(hf * (m - 1) + hf == hf * m) by (nonlinear_arith);
    }
}

/// The rounded average of at most 255 per sample fits in a byte.
proof fn lemma_average_fits(sum: int, count: int)
    requires
        1 <= count,
        0 <= sum <= 255 * count,
    ensures
        0 <= rounded_average(sum, count) <= 255,
{
    assert((sum + count / 2) / count <= 255) by (nonlinear_arith)
        requires
            1 <= count,
            0 <= sum <= 255 * count,
    {
        assert(sum + count / 2 < 256 * count);
        vstd::arithmetic::div_mod::lemma_div_by_multiple_is_strongly_ordered(sum + count / 2, 256 * count, 256, count);
    }
    vstd::arithmetic::div_mod::lemma_div_pos_is_pos(sum + count / 2, count);
}

proof fn lemma_cell_start_inside(n: int, f: int, o: int)
    requires
        1 <= f,
        0 <= n,
        0 <= o < ceil_div(n, f),
    ensures
        o * f < n,
{
    assert(o * f < n) by (nonlinear_arith)
        requires
            1 <= f,
            0 <= n,
            0 <= o,
            o < (n + f - 1) / f,
    {
        assert(o + 1 <= (n + f - 1) / f);
        assert((o + 1) * f <= ((n + f - 1) / f) * f);
        vstd::arithmetic::div_mod::lemma_fundamental_div_mod(n + f - 1, f);
    }
}

/// Sum and count of the valid samples of one cell, as the nested loops
/// visit them.
fn cell_totals(plane: &[u8], width: u32, height: u32, h_factor: u32, v_factor: u32, out_x: u32, out_y: u32)
    -> (totals: (u32, u32))
    requires
        1 <= h_factor <= 255,
        1 <= v_factor <= 255,
        width * height <= plane@.len(),
        width * height <= 0x1_0000_0000,
        out_x * h_factor < width,
        out_y * v_factor < height,
    ensures
        totals.0 == cell_sum(plane@, width as int, height as int, out_x * h_factor, out_y * v_factor, h_factor as nat, v_factor as nat),
        totals.1 == cell_count(width as int, height as int, out_x * h_factor, out_y * v_factor, h_factor as nat, v_factor as nat),
{
    let ghost x0 = out_x * h_factor;
    let ghost y0 = out_y * v_factor;
    let mut sum: u32 = 0;
    let mut valid_sample_count: u32 = 0;
    let mut offset_y: u32 = 0;
    while offset_y < v_factor
        invariant
            offset_y <= v_factor,
            1 <= h_factor <= 255,
            1 <= v_factor <= 255,
            width * height <= plane@.len(),
            width * height <= 0x1_0000_0000,
            x0 == out_x * h_factor,
            y0 == out_y * v_factor,
            x0 < width,
            y0 < height,
            sum == cell_sum(plane@, width as int, height as int, x0, y0, h_factor as nat, offset_y as nat),
            valid_sample_count == cell_count(width as int, height as int, x0, y0, h_factor as nat, offset_y as nat),
            valid_sample_count <= h_factor * offset_y,
            sum <= 255 * valid_sample_count,
        decreases v_factor - offset_y,
    {
        proof {
            lemma_cell_bounds(plane@, width as int, height as int, x0, y0, h_factor as nat, (offset_y + 1) as nat);
            assert(h_factor * (offset_y + 1) <= 255 * 255) by (nonlinear_arith)
                requires
                    h_factor <= 255,
                    offset_y < 255,
            ;
        }
        let src_y: u64 = out_y as u64 * v_factor as u64 + offset_y as u64;
        if src_y < height as u64 {
            let ghost row_start_sum = sum;
            let ghost row_start_count = valid_sample_count;
            let mut offset_x: u32 = 0;
            while offset_x < h_factor
                invariant
                    offset_x <= h_factor,
                    1 <= h_factor <= 255,
                    offset_y < v_factor <= 255,
                    width * height <= plane@.len(),
                    width * height <= 0x1_0000_0000,
                    x0 == out_x * h_factor,
                    x0 < width,
                    src_y == y0 + offset_y,
                    src_y < height,
                    row_start_sum == cell_sum(plane@, width as int, height as int, x0, y0, h_factor as nat, offset_y as nat),
                    row_start_count == cell_count(width as int, height as int, x0, y0, h_factor as nat, offset_y as nat),
                    row_start_count <= h_factor * offset_y,
                    h_factor * (offset_y + 1) <= 255 * 255,
                    sum == row_start_sum + span_sum(plane@, width as int, src_y as int, x0, offset_x as nat),
                    valid_sample_count == row_start_count + span_count(width as int, x0, offset_x as nat),
                    sum <= 255 * valid_sample_count,
                    valid_sample_count <= row_start_count + offset_x,
                decreases h_factor - offset_x,
            {
                let src_x: u64 = out_x as u64 * h_factor as u64 + offset_x as u64;
                if src_x < width as u64 {
                    proof {
                        assert(src_y * width + src_x < width * height) by (nonlinear_arith)
                            requires
                                src_x < width,
                                src_y < height,
                        ;
                        assert(h_factor * offset_y + offset_x < 255 * 255) by (nonlinear_arith)
                            requires
                                h_factor * (offset_y + 1) <= 255 * 255,
                                offset_x < h_factor,
                        ;
                    }
                    let idx: u64 = src_y * width as u64 + src_x;
                    sum += plane[idx as usize] as u32;
                    valid_sample_count += 1;
                }
                offset_x += 1;
            }
        }
        offset_y += 1;
    }
    (sum, valid_sample_count)
}

/// Downsample a plane by integer factors with a box filter.
///
/// Factors (1, 1) return a copy of the plane. Otherwise the result has
/// ceil(width / h_factor) * ceil(height / v_factor) samples in raster order,
/// each the rounded average `(sum + count / 2) / count` of the samples of
/// its cell that lie inside the plane.
pub fn downsample_plane(plane: &[u8], width: u32, height: u32, h_factor: u8, v_factor: u8) -> (out: Vec<u8>)
    requires
        1 <= h_factor,
        1 <= v_factor,
        h_factor == 1 && v_factor == 1 || (
            width * height <= plane@.len()
            && width * height <= 0x1_0000_0000
            && width + h_factor <= u32::MAX
            && height + v_factor <= u32::MAX),
    ensures
        out@ == downsampled(plane@, width as int, height as int, h_factor as nat, v_factor as nat),
{
    if h_factor == 1 && v_factor == 1 {
        return vstd::slice::slice_to_vec(plane);
    }
    let h_factor_u32 = h_factor as u32;
    let v_factor_u32 = v_factor as u32;
    let out_width = (width + h_factor_u32 - 1) / h_factor_u32;
    let out_height = (height + v_factor_u32 - 1) / v_factor_u32;
    let ghost ow = out_width as int;
    let ghost target = downsampled(plane@, width as int, height as int, h_factor as nat, v_factor as nat);

    let mut downsampled_plane: Vec<u8> = Vec::new();
    let mut out_y: u32 = 0;
    while out_y < out_height
        invariant
            out_y <= out_height,
            !(h_factor == 1 && v_factor == 1),
            1 <= h_factor_u32 <= 255,
            1 <= v_factor_u32 <= 255,
            h_factor_u32 == h_factor,
            v_factor_u32 == v_factor,
            width * height <= plane@.len(),
            width * height <= 0x1_0000_0000,
            out_width == ceil_div(width as int, h_factor as int),
            out_height == ceil_div(height as int, v_factor as int),
            ow == out_width,
            target == downsampled(plane@, width as int, height as int, h_factor as nat, v_factor as nat),
            downsampled_plane.len() == out_y * ow,
            forall|i: int| 0 <= i < downsampled_plane.len() ==> #[trigger] downsampled_plane@[i] == target[i],
        decreases out_height - out_y,
    {
        let mut out_x: u32 = 0;
        while out_x < out_width
            invariant
                out_x <= out_width,
                out_y < out_height,
                !(h_factor == 1 && v_factor == 1),
                1 <= h_factor_u32 <= 255,
                1 <= v_factor_u32 <= 255,
                h_factor_u32 == h_factor,
                v_factor_u32 == v_factor,
                width * height <= plane@.len(),
                width * height <= 0x1_0000_0000,
                out_width == ceil_div(width as int, h_factor as int),
                out_height == ceil_div(height as int, v_factor as int),
                ow == out_width,
                target == downsampled(plane@, width as int, height as int, h_factor as nat, v_factor as nat),
                downsampled_plane.len() == out_y * ow + out_x,
                forall|i: int| 0 <= i < downsampled_plane.len() ==> #[trigger] downsampled_plane@[i] == target[i],
            decreases out_width - out_x,
        {
            proof {
                lemma_cell_start_inside(width as int, h_factor as int, out_x as int);
                lemma_cell_start_inside(height as int, v_factor as int, out_y as int);
            }
            let (sum, valid_sample_count) = cell_totals(plane, width, height, h_factor_u32, v_factor_u32, out_x, out_y);
            proof {
                lemma_cell_bounds(plane@, width as int, height as int, (out_x * h_factor) as int,
                    (out_y * v_factor) as int, h_factor as nat, v_factor as nat);
                lemma_average_fits(sum as int, valid_sample_count as int);
                assert(h_factor * v_factor <= 255 * 255) by (nonlinear_arith)
                    requires
                        h_factor <= 255,
                        v_factor <= 255,
                ;
            }
            let avg = ((sum + valid_sample_count / 2) / valid_sample_count) as u8;
            proof {
                let i = out_y * ow + out_x;
                assert(0 <= i < ow * ceil_div(height as int, v_factor as int)) by (nonlinear_arith)
                    requires
                        i == out_y * ow + out_x,
                        0 <= out_x < ow,
                        0 <= out_y < ceil_div(height as int, v_factor as int),
                ;
                vstd::arithmetic::div_mod::lemma_fundamental_div_mod_converse(i, ow, out_y as int, out_x as int);
                assert(target[i] == avg);
            }
            downsampled_plane.push(avg);
            out_x += 1;
        }
        proof {
            assert(downsampled_plane.len() == (out_y + 1) * ow) by (nonlinear_arith)
                requires
                    downsampled_plane.len() == out_y * ow + ow,
            ;
        }
        out_y += 1;
    }
    assert(downsampled_plane.len() == target.len()) by (nonlinear_arith)
        requires
            downsampled_plane.len() == out_height * ow,
            target.len() == ow * out_height,
    ;
    assert(downsampled_plane@ == target);
    downsampled_plane
}

/// The downsampling ratios of the chroma planes: (Hmax / H_cb, Vmax / V_cb).
pub open spec fn chroma_ratios(s: Subsampling) -> (u8, u8) {
    ((s.spec_h_max() / s.spec_factors().2) as u8, (s.spec_v_max() / s.spec_factors().3) as u8)
}

/// Subsample both chrominance planes for a subsampling mode.
///
/// Returns `(cb_sub, cb_w, cb_h, cr_sub, cr_w, cr_h)`: each plane
/// downsampled by the ratio of the maximum sampling factors to the chroma
/// factors, and its dimensions ceil(width / ratio) * ceil(height / ratio).
/// For 4:4:4 both planes and dimensions are the input ones.
pub fn subsample_chroma(cb: &[u8], cr: &[u8], width: u32, height: u32, subsampling: Subsampling)
    -> (r: (Vec<u8>, u32, u32, Vec<u8>, u32, u32))
    requires
        subsampling != Subsampling::S444 ==> (
            width * height <= cb@.len()
            && width * height <= cr@.len()
            && width * height <= 0x1_0000_0000
        ),
        width + chroma_ratios(subsampling).0 <= u32::MAX,
        height + chroma_ratios(subsampling).1 <= u32::MAX,
    ensures
        ({
            let (hr, vr) = chroma_ratios(subsampling);
            &&& r.0@ == downsampled(cb@, width as int, height as int, hr as nat, vr as nat)
            &&& r.3@ == downsampled(cr@, width as int, height as int, hr as nat, vr as nat)
            &&& r.1 == ceil_div(width as int, hr as int) && r.4 == r.1
            &&& r.2 == ceil_div(height as int, vr as int) && r.5 == r.2
        }),
{
    let (_, _, h_cb, v_cb, _, _) = subsampling.factors();
    let h_max = subsampling.h_max();
    let v_max = subsampling.v_max();

    let h_ratio = h_max / h_cb;
    let v_ratio = v_max / v_cb;
    proof {
        crate::types::lemma_luma_has_max_factors(subsampling);
    }

    let cb_sub = downsample_plane(cb, width, height, h_ratio, v_ratio);
    let cr_sub = downsample_plane(cr, width, height, h_ratio, v_ratio);

    let sub_w = (width + h_ratio as u32 - 1) / h_ratio as u32;
    let sub_h = (height + v_ratio as u32 - 1) / v_ratio as u32;

    (cb_sub, sub_w, sub_h, cr_sub, sub_w, sub_h)
}

} // verus!
