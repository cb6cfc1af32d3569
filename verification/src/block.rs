//! 8*8 block extraction from component planes (T.81 §A.2.4, §A.3.1).
//!
//! Each component plane is cut into non-overlapping 8*8 blocks in raster
//! order. Where the plane's width or height is not a multiple of 8, the
//! last column and row are replicated: a sample coordinate outside the plane
//! is clamped to the nearest valid one. Samples are level-shifted from
//! 0..=255 to -128..=127.
use vstd::prelude::*;

verus! {

/// An 8*8 block of signed coefficients in natural (row-major) order:
/// index = row * 8 + column.
pub type Block8x8 = [i16; 64];

/// Number of 8-sample blocks that cover `n` samples: ceil(n / 8).
pub open spec fn block_count(n: int) -> int {
    (n + 7) / 8
}

/// Number of 8*8 blocks that span `width` samples horizontally.
pub fn blocks_wide(width: u32) -> (n: u32)
    ensures
        n == block_count(width as int),
{
    width / 8 + if width % 8 != 0 { 1 } else { 0 }
}

/// Number of 8*8 blocks that span `height` samples vertically.
pub fn blocks_high(height: u32) -> (n: u32)
    ensures
        n == block_count(height as int),
{
    height / 8 + if height % 8 != 0 { 1 } else { 0 }
}

/// `v` clamped to `limit - 1` from above.
pub open spec fn clamp_to(v: int, limit: int) -> int {
    if v < limit - 1 { v } else { limit - 1 }
}

/// Sample `pos` (row * 8 + col) of the block at block coordinates (bx, by)
/// of a plane, with edge replication and level shift.
pub open spec fn block_sample(plane: Seq<u8>, width: int, height: int, bx: int, by: int, pos: int) -> int {
    let sy = clamp_to(by * 8 + pos / 8, height);
    let sx = clamp_to(bx * 8 + pos % 8, width);
    plane[sy * width + sx] - 128
}

/// The plane has `width` * `height` samples that 32-bit indexes can reach.
pub open spec fn plane_fits(plane: Seq<u8>, width: int, height: int) -> bool {
    &&& 1 <= width
    &&& 1 <= height
    &&& width * height <= plane.len()
    &&& width * height <= u32::MAX
}

proof fn lemma_sample_index(width: int, height: int, sx: int, sy: int)
    requires
        1 <= width,
        1 <= height,
        0 <= sx < width,
        0 <= sy < height,
    ensures
        0 <= sy * width + sx < width * height,
{
    assert(sy * width + sx < width * height) by (nonlinear_arith)
        requires
            0 <= sx < width,
            0 <= sy < height,
    {
        assert(sy * width <= (height - 1) * width);
    }
    assert(0 <= sy * width) by (nonlinear_arith)
        requires
            0 <= sy,
            1 <= width,
    ;
}

/// The block at block coordinates (bx, by).
fn extract_block(plane: &[u8], width: u32, height: u32, bx: u32, by: u32) -> (block: Block8x8)
    requires
        plane_fits(plane@, width as int, height as int),
    ensures
        forall|p: int| 0 <= p < 64 ==> #[trigger] block[p] == block_sample(
            plane@, width as int, height as int, bx as int, by as int, p),
{
    let mut block: Block8x8 = [0i16; 64];
    let mut p: usize = 0;
    while p < 64
        invariant
            p <= 64,
            plane_fits(plane@, width as int, height as int),
            forall|j: int| 0 <= j < p ==> #[trigger] block[j] == block_sample(
                plane@, width as int, height as int, bx as int, by as int, j),
        decreases 64 - p,
    {
        let row: u64 = (p / 8) as u64;
        let col: u64 = (p % 8) as u64;
        let y: u64 = by as u64 * 8 + row;
        let x: u64 = bx as u64 * 8 + col;
        let sy: u64 = if y < height as u64 - 1 { y } else { height as u64 - 1 };
        let sx: u64 = if x < width as u64 - 1 { x } else { width as u64 - 1 };
        proof {
            lemma_sample_index(width as int, height as int, sx as int, sy as int);
        }
        let idx: u64 = sy * width as u64 + sx;
        let sample: u8 = plane[idx as usize];
        block[p] = sample as i16 - 128;
        p = p + 1;
    }
    block
}

/// Extract all 8*8 blocks of a plane in raster order (left to right, then
/// top to bottom), level-shifted by -128, replicating the last column and
/// row where the plane does not fill a block.
pub fn extract_blocks(plane: &[u8], width: u32, height: u32) -> (blocks: Vec<Block8x8>)
    requires
        width == 0 || height == 0 || plane_fits(plane@, width as int, height as int),
    ensures
        blocks.len() == block_count(width as int) * block_count(height as int),
        forall|by: int, bx: int, p: int|
            0 <= by < block_count(height as int) && 0 <= bx < block_count(width as int) && 0 <= p
                < 64 ==> #[trigger] blocks@[by * block_count(width as int) + bx][p]
                == block_sample(plane@, width as int, height as int, bx, by, p),
{
    let blocks_h: u32 = blocks_wide(width);
    let blocks_v: u32 = blocks_high(height);
    if blocks_h == 0 || blocks_v == 0 {
        // A plane without samples has no blocks.
        return Vec::new();
    }
    let ghost bw = blocks_h as int;
    let mut blocks: Vec<Block8x8> = Vec::new();
    let mut by: u32 = 0;
    while by < blocks_v
        invariant
            by <= blocks_v,
            blocks_h == block_count(width as int),
            blocks_v == block_count(height as int),
            bw == blocks_h,
            plane_fits(plane@, width as int, height as int),
            blocks.len() == by * bw,
            forall|y: int, x: int, p: int|
                0 <= y < by && 0 <= x < bw && 0 <= p < 64 ==> #[trigger] blocks@[y * bw + x][p]
                    == block_sample(plane@, width as int, height as int, x, y, p),
        decreases blocks_v - by,
    {
        let mut bx: u32 = 0;
        while bx < blocks_h
            invariant
                bx <= blocks_h,
                by < blocks_v,
                blocks_h == block_count(width as int),
                blocks_v == block_count(height as int),
                bw == blocks_h,
                plane_fits(plane@, width as int, height as int),
                blocks.len() == by * bw + bx,
                forall|y: int, x: int, p: int|
                    0 <= y < by && 0 <= x < bw && 0 <= p < 64 ==> #[trigger] blocks@[y * bw + x][p]
                        == block_sample(plane@, width as int, height as int, x, y, p),
                forall|x: int, p: int|
                    0 <= x < bx && 0 <= p < 64 ==> #[trigger] blocks@[by * bw + x][p]
                        == block_sample(plane@, width as int, height as int, x, by as int, p),
            decreases blocks_h - bx,
        {
            let block = extract_block(plane, width, height, bx, by);
            let ghost old_blocks = blocks@;
            blocks.push(block);
            proof {
                assert forall|y: int, x: int, p: int|
                    0 <= y < by && 0 <= x < bw && 0 <= p < 64 implies #[trigger] blocks@[y * bw
                        + x][p] == block_sample(plane@, width as int, height as int, x, y, p) by {
                    assert(y * bw + x < by * bw) by (nonlinear_arith)
                        requires
                            0 <= y < by,
                            0 <= x < bw,
                    ;
                    assert(blocks@[y * bw + x] == old_blocks[y * bw + x]);
                }
                assert forall|x: int, p: int|
                    0 <= x < bx + 1 && 0 <= p < 64 implies #[trigger] blocks@[by * bw + x][p]
                        == block_sample(plane@, width as int, height as int, x, by as int, p) by {
                    if x < bx {
                        assert(blocks@[by * bw + x] == old_blocks[by * bw + x]);
                    } else {
                        assert(blocks@[by * bw + x] == block);
                    }
                }
            }
            bx = bx + 1;
        }
        proof {
            assert(blocks.len() == (by + 1) * bw) by (nonlinear_arith)
                requires
                    blocks.len() == by * bw + bw,
            ;
            assert forall|y: int, x: int, p: int|
                0 <= y < by + 1 && 0 <= x < bw && 0 <= p < 64 implies #[trigger] blocks@[y * bw
                    + x][p] == block_sample(plane@, width as int, height as int, x, y, p) by {
                if y < by {
                } else {
                    assert(y == by);
                }
            }
        }
        by = by + 1;
    }
    assert(blocks.len() == block_count(width as int) * block_count(height as int)) by (nonlinear_arith)
        requires
            blocks.len() == by * bw,
            by == block_count(height as int),
            bw == block_count(width as int),
    ;
    blocks
}

} // verus!
