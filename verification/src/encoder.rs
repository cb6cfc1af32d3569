//! The encoding pipeline: validation, color conversion, subsampling, block
//! coding, Huffman table construction and assembly of the JFIF file.
//!
//! ```text
//!   SOI, APP0 (JFIF), DQT, SOF0, DHT..., [DRI], SOS, entropy-coded data, EOI
//! ```
//!
//! The entropy-coded data of a scan is described by a sequence of events:
//! restart markers and blocks, visited MCU by MCU. Each block is coded with
//! the DC prediction of its component, which restarts at zero after every
//! restart marker (T.81 §E.1.4, §F.1.1.5.1).
use vstd::prelude::*;

use crate::bitstream::{flush_state, ones, pack, push_bits, stuff, BitWriter, WriterState};
use crate::block::{block_count, block_sample, extract_blocks, plane_fits, Block8x8};
use crate::dct::{fdct, fdct_value};
use crate::entropy::huffman_encoder;
use crate::entropy::huffman_table::HuffmanTable;
use crate::entropy::symbols::{
    token_fault, ac_tokens, block_tokens, count_symbol, lemma_ac_tokens_are_ac, lemma_count_append, stream_tokens,
    next_prediction, tokens_bits, tokens_fault, writes_tokens, CodeFault, Token, dc_token,
};
use crate::error::Error;
use crate::marker::rst_bytes;
use crate::bitstream::be16;
use crate::color::{grayscale_to_y_plane, planes_of, rgb_to_ycbcr_planar};
use crate::sampling::{ceil_div, chroma_ratios, downsampled, subsample_chroma};
use crate::entropy::huffman_table::{
    build_table, built_from, occurs, counts_match, AcFrequencies, DcFrequencies,
    MAX_DC_CATEGORIES,
};
use crate::marker::{
    self, app0_bytes, dht_bytes, dqt_bytes, dri_bytes, sof0_bytes, sos_bytes, FrameComponent,
    ScanComponent, MARKER_EOI, MARKER_SOI,
};
use crate::quantize::{
    quantize_block, rounded_quotient, scaled_entry, QuantTable, STD_CHROMINANCE_QUANT,
    STD_LUMINANCE_QUANT, ZIG_ZAG,
};
use crate::types::{ColorSpace, RawImage};
use crate::types::{EncoderConfig, Subsampling};
use crate::scan_stats::{components_ok, count_scan, lemma_scan_dc_symbols, lemma_scan_tokens_len, scan_counts, scan_tokens};

verus! {

/// The level-shifted samples of block `b` (raster order) of a plane.
pub open spec fn plane_block(plane: Seq<u8>, width: int, height: int, b: int) -> Seq<i16> {
    let bw = block_count(width);
    Seq::new(64, |p: int| block_sample(plane, width, height, b % bw, b / bw, p) as i16)
}

/// Block `b` of a plane after the DCT and quantization, in zig-zag order.
pub open spec fn coded_block(plane: Seq<u8>, width: int, height: int, q: Seq<u16>, b: int) -> Seq<i16> {
    let s = plane_block(plane, width, height, b);
    Seq::new(
        64,
        |k: int|
            rounded_quotient(
                fdct_value(s, ZIG_ZAG[k] as int / 8, ZIG_ZAG[k] as int % 8) as i16 as int,
                q[ZIG_ZAG[k] as int] as int,
            ) as i16,
    )
}

/// The quantized blocks of one component with its dimensions.
struct ComponentData {
    quantized: Vec<[i16; 64]>,
    width: u32,
    height: u32,
}

/// The blocks of `data` are the coded blocks of a `width` * `height` plane.
#[verifier::opaque]
pub open spec fn codes_plane(data: Seq<[i16; 64]>, plane: Seq<u8>, width: int, height: int, q: Seq<u16>) -> bool {
    &&& data.len() == block_count(width) * block_count(height)
    &&& forall|b: int| 0 <= b < data.len() ==> #[trigger] data[b]@ == coded_block(plane, width, height, q, b)
}

/// Extract the blocks of a plane, transform and quantize each.
fn process_component(plane: &[u8], width: u32, height: u32, quant_table: &QuantTable) -> (data: ComponentData)
    requires
        plane_fits(plane@, width as int, height as int),
    ensures
        data.width == width,
        data.height == height,
        codes_plane(data.quantized@, plane@, width as int, height as int, quant_table.natural()),
{
    let blocks = extract_blocks(plane, width, height);
    let ghost bw = block_count(width as int);
    let mut quantized: Vec<[i16; 64]> = Vec::new();
    let mut b: usize = 0;
    while b < blocks.len()
        invariant
            b <= blocks.len(),
            bw == block_count(width as int),
            bw >= 1,
            blocks.len() == block_count(width as int) * block_count(height as int),
            forall|by: int, bx: int, p: int|
                0 <= by < block_count(height as int) && 0 <= bx < block_count(width as int) && 0 <= p
                    < 64 ==> #[trigger] blocks@[by * block_count(width as int) + bx][p]
                    == block_sample(plane@, width as int, height as int, bx, by, p),
            quantized.len() == b,
            forall|j: int| 0 <= j < b ==> #[trigger] quantized@[j]@ == coded_block(
                plane@, width as int, height as int, quant_table.natural(), j),
        decreases blocks.len() - b,
    {
        let ghost samples = plane_block(plane@, width as int, height as int, b as int);
        proof {
            let bx = b as int % bw;
            let by = b as int / bw;
            vstd::arithmetic::div_mod::lemma_fundamental_div_mod(b as int, bw);
            assert(0 <= by < block_count(height as int)) by (nonlinear_arith)
                requires
                    by == b as int / bw,
                    bw >= 1,
                    0 <= b < bw * block_count(height as int),
            {
                vstd::arithmetic::div_mod::lemma_div_by_multiple_is_strongly_ordered(
                    b as int, bw * block_count(height as int), block_count(height as int), bw);
            }
            assert forall|p: int| 0 <= p < 64 implies blocks@[b as int][p] == samples[p] by {
                assert(blocks@[by * bw + bx][p] == block_sample(plane@, width as int, height as int, bx, by, p));
            }
            assert(blocks@[b as int]@ =~= samples);
        }
        let dct_block = fdct(&blocks[b]);
        let coded = quantize_block(&dct_block, quant_table);
        proof {
            let target = coded_block(plane@, width as int, height as int, quant_table.natural(), b as int);
            assert forall|k: int| 0 <= k < 64 implies coded[k] == target[k] by {
                crate::quantize::lemma_zig_zag_is_permutation();
                let z = ZIG_ZAG[k] as int;
                assert(dct_block[(z / 8) * 8 + z % 8] == fdct_value(samples, z / 8, z % 8) as i16);
            }
            assert(coded@ =~= target);
        }
        quantized.push(coded);
        b = b + 1;
    }
    proof {
        reveal(codes_plane);
    }
    ComponentData { quantized, width, height }
}

/// One step of a scan.
#[derive(Clone, Copy)]
pub enum ScanEvent {
    /// Pad the pending bits with ones, write the next restart marker and
    /// reset every DC prediction to zero.
    Restart,
    /// Code block `index` of component `component`; an index past the
    /// component's blocks codes nothing.
    Block(u8, usize),
}

/// Progress of a scan: the first fault met (if any), the writer state, the
/// DC predictions of the three components and the number of restart
/// markers written.
pub type ScanProgress = (Option<CodeFault>, WriterState, Seq<i16>, nat);

/// The DC table of component `c` among (luminance DC, luminance AC,
/// chrominance DC, chrominance AC): component 0 is luminance.
pub open spec fn dc_table_of(tables: Seq<HuffmanTable>, c: int) -> HuffmanTable {
    if c == 0 { tables[0] } else { tables[2] }
}

/// The AC table of component `c` (see `dc_table_of`).
pub open spec fn ac_table_of(tables: Seq<HuffmanTable>, c: int) -> HuffmanTable {
    if c == 0 { tables[1] } else { tables[3] }
}

/// The progress after one more event. Once a fault is met nothing changes.
pub open spec fn scan_step(s: ScanProgress, e: ScanEvent, data: Seq<Seq<[i16; 64]>>, tables: Seq<HuffmanTable>) -> ScanProgress {
    if s.0 is Some {
        s
    } else {
        match e {
            ScanEvent::Restart => (
                None,
                (flush_state(s.1).0 + rst_bytes((s.3 % 8) as u16), Seq::empty()),
                seq![0i16, 0, 0],
                s.3 + 1,
            ),
            ScanEvent::Block(c, idx) => {
                if idx >= data[c as int].len() {
                    s
                } else {
                    let blk = data[c as int][idx as int]@;
                    let toks = block_tokens(blk, s.2[c as int]);
                    let dc = dc_table_of(tables, c as int);
                    let ac = ac_table_of(tables, c as int);
                    match tokens_fault(toks, dc, ac) {
                        Some(f) => (Some(f), s.1, s.2, s.3),
                        None => (None, push_bits(s.1, tokens_bits(toks, dc, ac)), s.2.update(c as int, blk[0]), s.3),
                    }
                }
            },
        }
    }
}

/// The progress after a sequence of events, starting from writer state
/// `st` with all predictions zero.
pub open spec fn scan_fold(events: Seq<ScanEvent>, data: Seq<Seq<[i16; 64]>>, tables: Seq<HuffmanTable>, st: WriterState) -> ScanProgress
    decreases events.len(),
{
    if events.len() == 0 {
        (None, st, seq![0i16, 0, 0], 0)
    } else {
        scan_step(scan_fold(events.drop_last(), data, tables, st), events.last(), data, tables)
    }
}

/// A scan function returned `r` and left the writer in `fin` as the
/// progress `p` says: success with its writer state, or its first fault.
pub open spec fn scan_result(r: Result<(), Error>, fin: WriterState, p: ScanProgress) -> bool {
    match p.0 {
        None => r is Ok && fin == p.1,
        Some(f) => crate::entropy::symbols::fault_error(r, f),
    }
}

/// A restart marker precedes MCU `m` when `m` is a positive multiple of the
/// restart interval.
pub open spec fn restart_before(ri: int, m: int) -> bool {
    ri > 0 && m > 0 && m % ri == 0
}

/// The restart event before MCU `m`, if any.
pub open spec fn restart_events(ri: int, m: int) -> Seq<ScanEvent> {
    if restart_before(ri, m) { seq![ScanEvent::Restart] } else { Seq::empty() }
}

/// The events of a single-component scan of `n` blocks.
pub open spec fn grayscale_events(ri: int, n: nat) -> Seq<ScanEvent>
    decreases n,
{
    if n == 0 {
        Seq::empty()
    } else {
        grayscale_events(ri, (n - 1) as nat) + restart_events(ri, n - 1) + seq![ScanEvent::Block(0, (n - 1) as usize)]
    }
}

/// Every DC coefficient of the blocks lies in -16384..=16383, so every DC
/// difference fits in 16 bits.
pub open spec fn dc_bounded(blocks: Seq<[i16; 64]>) -> bool {
    forall|b: int| 0 <= b < blocks.len() ==> -16384 <= #[trigger] blocks[b]@[0] <= 16383
}

proof fn lemma_fold_push(events: Seq<ScanEvent>, e: ScanEvent, data: Seq<Seq<[i16; 64]>>, tables: Seq<HuffmanTable>, st: WriterState)
    ensures
        scan_fold(events.push(e), data, tables, st) == scan_step(scan_fold(events, data, tables, st), e, data, tables),
{
    assert(events.push(e).drop_last() =~= events);
}

/// A fault is never undone by later events.
proof fn lemma_fault_sticks(a: Seq<ScanEvent>, b: Seq<ScanEvent>, data: Seq<Seq<[i16; 64]>>, tables: Seq<HuffmanTable>, st: WriterState)
    requires
        scan_fold(a, data, tables, st).0 is Some,
    ensures
        scan_fold(a + b, data, tables, st) == scan_fold(a, data, tables, st),
    decreases b.len(),
{
    if b.len() == 0 {
        assert(a + b =~= a);
    } else {
        lemma_fault_sticks(a, b.drop_last(), data, tables, st);
        assert((a + b).drop_last() =~= a + b.drop_last());
    }
}

proof fn lemma_grayscale_fault_sticks(ri: int, m: nat, n: nat, data: Seq<Seq<[i16; 64]>>, tables: Seq<HuffmanTable>, st: WriterState)
    requires
        m <= n,
        scan_fold(grayscale_events(ri, m), data, tables, st).0 is Some,
    ensures
        scan_fold(grayscale_events(ri, n), data, tables, st) == scan_fold(grayscale_events(ri, m), data, tables, st),
    decreases n - m,
{
    if m < n {
        lemma_grayscale_fault_sticks(ri, m, (n - 1) as nat, data, tables, st);
        lemma_fault_sticks(
            grayscale_events(ri, (n - 1) as nat),
            restart_events(ri, n - 1) + seq![ScanEvent::Block(0, (n - 1) as usize)],
            data, tables, st,
        );
        assert(grayscale_events(ri, n) =~= grayscale_events(ri, (n - 1) as nat) + (restart_events(ri, n - 1)
            + seq![ScanEvent::Block(0, (n - 1) as usize)]));
    }
}

/// Code block `idx` of a component when it exists.
fn scan_block(
    blocks: &Vec<[i16; 64]>,
    idx: usize,
    dc_table: &HuffmanTable,
    ac_table: &HuffmanTable,
    prev: &mut i16,
    writer: &mut BitWriter,
) -> (r: Result<(), Error>)
    requires
        old(writer).wf(),
        idx < blocks.len() ==> -32768 <= blocks@[idx as int]@[0] - *old(prev) <= 32767,
    ensures
        final(writer).wf(),
        idx >= blocks.len() ==> r is Ok && final(writer)@ == old(writer)@ && *final(prev) == *old(prev),
        idx < blocks.len() ==> crate::entropy::symbols::writes_tokens(
            r,
            old(writer)@,
            final(writer)@,
            block_tokens(blocks@[idx as int]@, *old(prev)),
            *dc_table,
            *ac_table,
        ) && *final(prev) == blocks@[idx as int]@[0],
{
    if idx < blocks.len() {
        huffman_encoder::encode_block(&blocks[idx], dc_table, ac_table, prev, writer)
    } else {
        Ok(())
    }
}

/// Pad to a byte boundary and write the restart marker for `counter`
/// (kept modulo 8: only RST0..RST7 exist).
fn scan_restart(writer: &mut BitWriter, counter: &mut u16) -> (r: Result<(), Error>)
    requires
        old(writer).wf(),
        *old(counter) < 8,
    ensures
        final(writer).wf(),
        r is Ok,
        final(writer)@ == (flush_state(old(writer)@).0 + rst_bytes(*old(counter)), Seq::<bool>::empty()),
        *final(counter) == (*old(counter) + 1) % 8,
{
    let r1 = writer.flush_with_ones();
    let r2 = crate::marker::write_rst(writer, *counter);
    *counter = (*counter + 1) % 8;
    proof {
        assert(r1 is Ok);
    }
    r2
}

/// The exec state of a scan matches progress `p`.
pub open spec fn matches_progress(p: ScanProgress, w: WriterState, y: i16, cb: i16, cr: i16, counter: u16) -> bool {
    &&& p.0 is None
    &&& p.1 == w
    &&& p.2 == seq![y, cb, cr]
    &&& counter == p.3 % 8
}

/// Code the blocks of a single-component scan in order, with a restart
/// marker before every `restart_interval`-th block.
fn encode_grayscale_scan(
    y_data: &ComponentData,
    restart_interval: u16,
    dc_table: &HuffmanTable,
    ac_table: &HuffmanTable,
    writer: &mut BitWriter,
) -> (r: Result<(), Error>)
    requires
        old(writer).wf(),
        dc_bounded(y_data.quantized@),
    ensures
        final(writer).wf(),
        scan_result(
            r,
            final(writer)@,
            scan_fold(
                grayscale_events(restart_interval as int, y_data.quantized@.len()),
                seq![y_data.quantized@, y_data.quantized@, y_data.quantized@],
                seq![*dc_table, *ac_table, *dc_table, *ac_table],
                old(writer)@,
            ),
        ),
{
    let ghost data = seq![y_data.quantized@, y_data.quantized@, y_data.quantized@];
    let ghost tables = seq![*dc_table, *ac_table, *dc_table, *ac_table];
    let ghost st0 = writer@;
    let ghost ri = restart_interval as int;
    let total_mcus = y_data.quantized.len();
    let ri_exec = restart_interval as usize;
    let mut prev_dc: i16 = 0;
    let mut unused_cb: i16 = 0;
    let mut unused_cr: i16 = 0;
    let mut rst_counter: u16 = 0;
    let mut mcu_idx: usize = 0;
    while mcu_idx < total_mcus
        invariant
            mcu_idx <= total_mcus,
            total_mcus == y_data.quantized@.len(),
            ri_exec == ri,
            ri == restart_interval as int,
            writer.wf(),
            dc_bounded(y_data.quantized@),
            data == seq![y_data.quantized@, y_data.quantized@, y_data.quantized@],
            tables == seq![*dc_table, *ac_table, *dc_table, *ac_table],
            st0 == old(writer)@,
            rst_counter < 8,
            unused_cb == 0 && unused_cr == 0,
            -16384 <= prev_dc <= 16383,
            matches_progress(scan_fold(grayscale_events(ri, mcu_idx as nat), data, tables, st0), writer@, prev_dc, unused_cb, unused_cr, rst_counter),
        decreases total_mcus - mcu_idx,
    {
        let ghost before = grayscale_events(ri, mcu_idx as nat);
        let ghost with_restart = before + restart_events(ri, mcu_idx as int);
        if ri_exec > 0 && mcu_idx > 0 && mcu_idx % ri_exec == 0 {
            let ghost p = scan_fold(before, data, tables, st0);
            let _ = scan_restart(writer, &mut rst_counter);
            prev_dc = 0;
            proof {
                lemma_fold_push(before, ScanEvent::Restart, data, tables, st0);
                assert(with_restart =~= before.push(ScanEvent::Restart));
                vstd::arithmetic::div_mod::lemma_add_mod_noop(p.3 as int, 1, 8);
                assert(seq![prev_dc, unused_cb, unused_cr] =~= seq![0i16, 0, 0]);
            }
        } else {
            proof {
                assert(with_restart =~= before);
            }
        }
        let ghost mid = scan_fold(with_restart, data, tables, st0);
        assert(matches_progress(mid, writer@, prev_dc, unused_cb, unused_cr, rst_counter));
        let ghost e = ScanEvent::Block(0, mcu_idx);
        let ghost after = with_restart.push(e);
        proof {
            assert(-16384 <= y_data.quantized@[mcu_idx as int]@[0] <= 16383);
            lemma_fold_push(with_restart, e, data, tables, st0);
            assert(grayscale_events(ri, (mcu_idx + 1) as nat) =~= after);
        }
        let r = scan_block(&y_data.quantized, mcu_idx, dc_table, ac_table, &mut prev_dc, writer);
        if r.is_err() {
            proof {
                lemma_grayscale_fault_sticks(ri, (mcu_idx + 1) as nat, total_mcus as nat, data, tables, st0);
            }
            return r;
        }
        proof {
            assert(scan_fold(after, data, tables, st0).2 =~= seq![prev_dc, unused_cb, unused_cr]);
        }
        mcu_idx = mcu_idx + 1;
    }
    Ok(())
}

/// Whole MCUs of 1 or 2 blocks cover a row of 1..=8192 blocks.
proof fn lemma_mcu_count(blocks: u32, m: u32)
    requires
        1 <= blocks <= 8192,
        1 <= m <= 2,
    ensures
        1 <= (blocks + m - 1) / (m as int) <= blocks,
{
    if m == 1 {
        assert((blocks + 0) / 1int == blocks);
    } else {
        assert((blocks + 1) / 2int <= blocks);
        assert((blocks + 1) / 2int >= 1);
    }
}

/// `min(a, b)`.
pub open spec fn min_int(a: int, b: int) -> int {
    if a <= b { a } else { b }
}

/// Geometry of an interleaved scan: the luminance block grid, the MCU grid
/// and the chroma block rows.
pub open spec fn mcus_wide(s: Subsampling, y_width: int) -> int {
    crate::sampling::ceil_div(block_count(y_width), s.spec_h_max() as int)
}

/// Number of MCU rows of an interleaved scan.
pub open spec fn mcus_high(s: Subsampling, y_height: int) -> int {
    crate::sampling::ceil_div(block_count(y_height), s.spec_v_max() as int)
}

/// Index of luminance block (v, h) of MCU (row, col): the block grid
/// position, clamped to the last block row and column at the image edges.
pub open spec fn y_block_index(s: Subsampling, y_width: int, y_height: int, row: int, col: int, v: int, h: int) -> usize {
    let ybh = block_count(y_width);
    let ybv = block_count(y_height);
    let br = row * s.spec_v_max() + v;
    let bc = col * s.spec_h_max() + h;
    (min_int(br, ybv - 1) * ybh + min_int(bc, ybh - 1)) as usize
}

/// The block events of MCU `m`: its Hy * Vy luminance blocks in raster
/// order, then one Cb and one Cr block.
pub open spec fn mcu_body(s: Subsampling, y_width: int, y_height: int, cb_width: int, cr_width: int, m: int) -> Seq<ScanEvent> {
    let mw = mcus_wide(s, y_width);
    let row = m / mw;
    let col = m % mw;
    let hy = s.spec_factors().0 as int;
    let vy = s.spec_factors().1 as int;
    let ny = hy * vy;
    Seq::new(
        (ny + 2) as nat,
        |i: int|
            if i < ny {
                ScanEvent::Block(0, y_block_index(s, y_width, y_height, row, col, i / hy, i % hy))
            } else if i == ny {
                ScanEvent::Block(1, (row * block_count(cb_width) + col) as usize)
            } else {
                ScanEvent::Block(2, (row * block_count(cr_width) + col) as usize)
            },
    )
}

/// The events of the first `n` MCUs of an interleaved scan.
pub open spec fn interleaved_events(s: Subsampling, y_width: int, y_height: int, cb_width: int, cr_width: int, ri: int, n: nat) -> Seq<ScanEvent>
    decreases n,
{
    if n == 0 {
        Seq::empty()
    } else {
        interleaved_events(s, y_width, y_height, cb_width, cr_width, ri, (n - 1) as nat) + restart_events(ri, n - 1)
            + mcu_body(s, y_width, y_height, cb_width, cr_width, n - 1)
    }
}

proof fn lemma_interleaved_fault_sticks(
    s: Subsampling, yw: int, yh: int, cbw: int, crw: int, ri: int, m: nat, n: nat,
    data: Seq<Seq<[i16; 64]>>, tables: Seq<HuffmanTable>, st: WriterState,
)
    requires
        m <= n,
        scan_fold(interleaved_events(s, yw, yh, cbw, crw, ri, m), data, tables, st).0 is Some,
    ensures
        scan_fold(interleaved_events(s, yw, yh, cbw, crw, ri, n), data, tables, st) == scan_fold(
            interleaved_events(s, yw, yh, cbw, crw, ri, m), data, tables, st),
    decreases n - m,
{
    if m < n {
        lemma_interleaved_fault_sticks(s, yw, yh, cbw, crw, ri, m, (n - 1) as nat, data, tables, st);
        let prev = interleaved_events(s, yw, yh, cbw, crw, ri, (n - 1) as nat);
        let rest = restart_events(ri, n - 1) + mcu_body(s, yw, yh, cbw, crw, n - 1);
        lemma_fault_sticks(prev, rest, data, tables, st);
        assert(interleaved_events(s, yw, yh, cbw, crw, ri, n) =~= prev + rest);
    }
}

/// The DC values and predictions stay within the range where every DC
/// difference fits in 16 bits, and the restart counter is below 8.
pub open spec fn scan_ready(y: Seq<[i16; 64]>, cb: Seq<[i16; 64]>, cr: Seq<[i16; 64]>, yp: i16, cbp: i16, crp: i16, counter: u16) -> bool {
    &&& dc_bounded(y) && dc_bounded(cb) && dc_bounded(cr)
    &&& -16384 <= yp <= 16383 && -16384 <= cbp <= 16383 && -16384 <= crp <= 16383
    &&& counter < 8
}

/// The block grids and MCU grid of an interleaved scan.
struct ScanGrid {
    hy: u32,
    vy: u32,
    h_max: u32,
    v_max: u32,
    y_blocks_h: u32,
    y_blocks_v: u32,
    cb_blocks_h: u32,
    cr_blocks_h: u32,
    mcus_h: u32,
    mcus_v: u32,
}

/// `g` is the grid of a scan of these dimensions.
spec fn grid_ok(g: ScanGrid, sub: Subsampling, yw: int, yh: int, cbw: int, crw: int) -> bool {
    &&& g.hy == sub.spec_factors().0 && g.vy == sub.spec_factors().1
    &&& g.h_max == sub.spec_h_max() && g.v_max == sub.spec_v_max()
    &&& g.hy == g.h_max && g.vy == g.v_max && 1 <= g.h_max <= 2 && 1 <= g.v_max <= 2
    &&& g.y_blocks_h == block_count(yw) && g.y_blocks_v == block_count(yh)
    &&& 1 <= g.y_blocks_h <= 8192 && 1 <= g.y_blocks_v <= 8192
    &&& g.cb_blocks_h == block_count(cbw) && g.cr_blocks_h == block_count(crw)
    &&& g.cb_blocks_h <= 8192 && g.cr_blocks_h <= 8192
    &&& g.mcus_h == mcus_wide(sub, yw) && g.mcus_v == mcus_high(sub, yh)
    &&& 1 <= g.mcus_h <= g.y_blocks_h && g.mcus_v <= g.y_blocks_v
}

/// The running state of a scan: the DC predictions and the restart counter
/// (modulo 8).
struct ScanState {
    y_prev: i16,
    cb_prev: i16,
    cr_prev: i16,
    rst_counter: u16,
}

/// The exec state of a scan matches progress `p`.
spec fn state_matches(p: ScanProgress, w: WriterState, st: ScanState) -> bool {
    matches_progress(p, w, st.y_prev, st.cb_prev, st.cr_prev, st.rst_counter)
}

/// The state's values allow the next DC differences.
spec fn state_ready(y: Seq<[i16; 64]>, cb: Seq<[i16; 64]>, cr: Seq<[i16; 64]>, st: ScanState) -> bool {
    scan_ready(y, cb, cr, st.y_prev, st.cb_prev, st.cr_prev, st.rst_counter)
}

/// Code the luminance blocks of MCU (mcu_row, mcu_col): events `from` to
/// Hy * Vy of the MCU's body.
#[verifier::rlimit(40)]
fn encode_mcu_luma(
    y_data: &ComponentData,
    lum_dc_table: &HuffmanTable,
    lum_ac_table: &HuffmanTable,
    g: &ScanGrid,
    mcu_row: u32,
    mcu_col: u32,
    state: &mut ScanState,
    writer: &mut BitWriter,
    Ghost(sub): Ghost<Subsampling>,
    Ghost(dims): Ghost<(int, int, int, int)>,
    Ghost(base): Ghost<Seq<ScanEvent>>,
    Ghost(m): Ghost<int>,
    Ghost(data): Ghost<Seq<Seq<[i16; 64]>>>,
    Ghost(tables): Ghost<Seq<HuffmanTable>>,
    Ghost(st0): Ghost<WriterState>,
) -> (r: Result<(), Error>)
    requires
        old(writer).wf(),
        grid_ok(*g, sub, dims.0, dims.1, dims.2, dims.3),
        mcu_row < g.mcus_v,
        mcu_col < g.mcus_h,
        m == mcu_row * g.mcus_h + mcu_col,
        y_data.width == dims.0 && y_data.height == dims.1,
        data.len() == 3 && data[0] == y_data.quantized@,
        dc_bounded(data[0]) && dc_bounded(data[1]) && dc_bounded(data[2]),
        tables.len() == 4 && tables[0] == *lum_dc_table && tables[1] == *lum_ac_table,
        state_ready(data[0], data[1], data[2], *old(state)),
        state_matches(scan_fold(base, data, tables, st0), old(writer)@, *old(state)),
    ensures
        final(writer).wf(),
        state_ready(data[0], data[1], data[2], *final(state)),
        final(state).cb_prev == old(state).cb_prev && final(state).cr_prev == old(state).cr_prev,
        final(state).rst_counter == old(state).rst_counter,
        ({
            let body = mcu_body(sub, dims.0, dims.1, dims.2, dims.3, m);
            let ny = g.hy * g.vy;
            &&& r is Ok ==> state_matches(scan_fold(base + body.take(ny), data, tables, st0), final(writer)@, *final(state))
            &&& r is Err ==> scan_fold(base + body, data, tables, st0).0 is Some
                && scan_result(r, final(writer)@, scan_fold(base + body, data, tables, st0))
        }),
{
    let ghost body = mcu_body(sub, dims.0, dims.1, dims.2, dims.3, m);
    proof {
        vstd::arithmetic::div_mod::lemma_fundamental_div_mod_converse(m, g.mcus_h as int, mcu_row as int, mcu_col as int);
        assert(base + body.take(0) =~= base);
    }
    let mut v: u32 = 0;
    while v < g.vy
        invariant
            v <= g.vy,
            mcu_row < g.mcus_v,
            mcu_col < g.mcus_h,
            writer.wf(),
            grid_ok(*g, sub, dims.0, dims.1, dims.2, dims.3),
            m == mcu_row * g.mcus_h + mcu_col,
            m / (g.mcus_h as int) == mcu_row && m % (g.mcus_h as int) == mcu_col,
            y_data.width == dims.0 && y_data.height == dims.1,
            data.len() == 3 && data[0] == y_data.quantized@,
            dc_bounded(data[0]) && dc_bounded(data[1]) && dc_bounded(data[2]),
            tables.len() == 4 && tables[0] == *lum_dc_table && tables[1] == *lum_ac_table,
            state_ready(data[0], data[1], data[2], *state),
            state.cb_prev == old(state).cb_prev && state.cr_prev == old(state).cr_prev,
            state.rst_counter == old(state).rst_counter,
            body == mcu_body(sub, dims.0, dims.1, dims.2, dims.3, m),
            state_matches(scan_fold(base + body.take(v * g.hy), data, tables, st0), writer@, *state),
        decreases g.vy - v,
    {
        let mut h: u32 = 0;
        while h < g.hy
            invariant
                h <= g.hy,
                v < g.vy,
                mcu_row < g.mcus_v,
                mcu_col < g.mcus_h,
                writer.wf(),
                grid_ok(*g, sub, dims.0, dims.1, dims.2, dims.3),
                m == mcu_row * g.mcus_h + mcu_col,
                m / (g.mcus_h as int) == mcu_row && m % (g.mcus_h as int) == mcu_col,
                y_data.width == dims.0 && y_data.height == dims.1,
                data.len() == 3 && data[0] == y_data.quantized@,
                dc_bounded(data[0]) && dc_bounded(data[1]) && dc_bounded(data[2]),
                tables.len() == 4 && tables[0] == *lum_dc_table && tables[1] == *lum_ac_table,
                state_ready(data[0], data[1], data[2], *state),
                state.cb_prev == old(state).cb_prev && state.cr_prev == old(state).cr_prev,
                state.rst_counter == old(state).rst_counter,
                body == mcu_body(sub, dims.0, dims.1, dims.2, dims.3, m),
                state_matches(scan_fold(base + body.take(v * g.hy + h), data, tables, st0), writer@, *state),
            decreases g.hy - h,
        {
            proof {
                assert(mcu_row * g.v_max + v < 16400 && mcu_col * g.h_max + h < 16400) by (nonlinear_arith)
                    requires
                        mcu_row < g.mcus_v <= 8192,
                        mcu_col < g.mcus_h <= 8192,
                        v < g.v_max <= 2,
                        h < g.h_max <= 2,
                ;
            }
            // Clamp to the block grid: partial MCUs at the image edges
            // repeat the last block row and column (T.81 §A.2.4).
            let block_row = mcu_row * g.v_max + v;
            let block_col = mcu_col * g.h_max + h;
            let br = if block_row < g.y_blocks_v - 1 { block_row } else { g.y_blocks_v - 1 };
            let bc = if block_col < g.y_blocks_h - 1 { block_col } else { g.y_blocks_h - 1 };
            proof {
                assert(br * g.y_blocks_h + bc < 8192 * 8192) by (nonlinear_arith)
                    requires
                        br < g.y_blocks_v <= 8192,
                        bc < g.y_blocks_h <= 8192,
                ;
            }
            let idx = (br * g.y_blocks_h + bc) as usize;
            let ghost k = v * g.hy + h;
            let ghost e = ScanEvent::Block(0, idx);
            let ghost pre = base + body.take(k as int);
            proof {
                assert(k < g.hy * g.vy) by (nonlinear_arith)
                    requires
                        k == v * g.hy + h,
                        v < g.vy,
                        h < g.hy,
                ;
                vstd::arithmetic::div_mod::lemma_fundamental_div_mod_converse(k as int, g.hy as int, v as int, h as int);
                assert(body[k as int] == e);
                assert(pre.push(e) =~= base + body.take(k + 1));
                lemma_fold_push(pre, e, data, tables, st0);
                if idx < y_data.quantized@.len() {
                    assert(-16384 <= y_data.quantized@[idx as int]@[0] <= 16383);
                }
            }
            let r = scan_block(&y_data.quantized, idx, lum_dc_table, lum_ac_table, &mut state.y_prev, writer);
            if r.is_err() {
                proof {
                    lemma_fault_sticks(base + body.take(k + 1), body.skip(k + 1), data, tables, st0);
                    assert(base + body =~= (base + body.take(k + 1)) + body.skip(k + 1));
                }
                return r;
            }
            proof {
                assert(scan_fold(base + body.take(k + 1), data, tables, st0).2 =~= seq![state.y_prev, state.cb_prev, state.cr_prev]);
                assert(v * g.hy + (h + 1) == k + 1);
            }
            h = h + 1;
        }
        proof {
            assert((v + 1) * g.hy == v * g.hy + g.hy) by (nonlinear_arith);
        }
        v = v + 1;
    }
    proof {
        assert(v * g.hy == g.hy * g.vy) by (nonlinear_arith)
            requires
                v == g.vy,
        ;
    }
    Ok(())
}

/// Code one chroma block (event `k` of the MCU's body).
fn encode_mcu_chroma(
    blocks: &Vec<[i16; 64]>,
    idx: usize,
    dc_table: &HuffmanTable,
    ac_table: &HuffmanTable,
    prev: &mut i16,
    writer: &mut BitWriter,
    Ghost(c): Ghost<u8>,
    Ghost(pre): Ghost<Seq<ScanEvent>>,
    Ghost(data): Ghost<Seq<Seq<[i16; 64]>>>,
    Ghost(tables): Ghost<Seq<HuffmanTable>>,
    Ghost(st0): Ghost<WriterState>,
    Ghost(others): Ghost<(i16, i16, i16, u16)>,
) -> (r: Result<(), Error>)
    requires
        old(writer).wf(),
        c == 1 || c == 2,
        data.len() == 3 && data[c as int] == blocks@,
        dc_bounded(blocks@),
        -16384 <= *old(prev) <= 16383,
        tables.len() == 4 && tables[2] == *dc_table && tables[3] == *ac_table,
        ({
            let preds = if c == 1 { seq![others.0, *old(prev), others.2] } else { seq![others.0, others.1, *old(prev)] };
            let p = scan_fold(pre, data, tables, st0);
            p.0 is None && p.1 == old(writer)@ && p.2 == preds && others.3 == p.3 % 8
        }),
    ensures
        final(writer).wf(),
        -16384 <= *final(prev) <= 16383,
        ({
            let preds = if c == 1 { seq![others.0, *final(prev), others.2] } else { seq![others.0, others.1, *final(prev)] };
            let p = scan_fold(pre.push(ScanEvent::Block(c, idx)), data, tables, st0);
            &&& r is Ok ==> p.0 is None && p.1 == final(writer)@ && p.2 == preds && others.3 == p.3 % 8
            &&& r is Err ==> p.0 is Some && scan_result(r, final(writer)@, p)
        }),
{
    proof {
        lemma_fold_push(pre, ScanEvent::Block(c, idx), data, tables, st0);
        if idx < blocks@.len() {
            assert(-16384 <= blocks@[idx as int]@[0] <= 16383);
        }
    }
    let r = scan_block(blocks, idx, dc_table, ac_table, prev, writer);
    proof {
        let preds = if c == 1 { seq![others.0, *prev, others.2] } else { seq![others.0, others.1, *prev] };
        let p = scan_fold(pre.push(ScanEvent::Block(c, idx)), data, tables, st0);
        if r is Ok {
            assert(p.2 =~= preds);
        }
    }
    r
}

/// Code MCU (mcu_row, mcu_col): the restart marker before it, if due, then
/// its luminance blocks and its two chroma blocks.
#[verifier::rlimit(80)]
fn encode_mcu(
    y_data: &ComponentData,
    cb_data: &ComponentData,
    cr_data: &ComponentData,
    tables4: (&HuffmanTable, &HuffmanTable, &HuffmanTable, &HuffmanTable),
    g: &ScanGrid,
    ri: usize,
    mcu_row: u32,
    mcu_col: u32,
    mcu_count: usize,
    state: &mut ScanState,
    writer: &mut BitWriter,
    Ghost(sub): Ghost<Subsampling>,
    Ghost(data): Ghost<Seq<Seq<[i16; 64]>>>,
    Ghost(tables): Ghost<Seq<HuffmanTable>>,
    Ghost(st0): Ghost<WriterState>,
) -> (r: Result<(), Error>)
    requires
        old(writer).wf(),
        grid_ok(*g, sub, y_data.width as int, y_data.height as int, cb_data.width as int, cr_data.width as int),
        mcu_row < g.mcus_v,
        mcu_col < g.mcus_h,
        mcu_count == mcu_row * g.mcus_h + mcu_col,
        data == seq![y_data.quantized@, cb_data.quantized@, cr_data.quantized@],
        dc_bounded(data[0]) && dc_bounded(data[1]) && dc_bounded(data[2]),
        tables == seq![*tables4.0, *tables4.1, *tables4.2, *tables4.3],
        state_ready(data[0], data[1], data[2], *old(state)),
        state_matches(
            scan_fold(interleaved_events(sub, y_data.width as int, y_data.height as int, cb_data.width as int, cr_data.width as int, ri as int, mcu_count as nat), data, tables, st0),
            old(writer)@, *old(state),
        ),
    ensures
        final(writer).wf(),
        state_ready(data[0], data[1], data[2], *final(state)),
        ({
            let p = scan_fold(interleaved_events(sub, y_data.width as int, y_data.height as int, cb_data.width as int, cr_data.width as int, ri as int, (mcu_count + 1) as nat), data, tables, st0);
            &&& r is Ok ==> state_matches(p, final(writer)@, *final(state))
            &&& r is Err ==> p.0 is Some && scan_result(r, final(writer)@, p)
        }),
{
    let ghost dims = (y_data.width as int, y_data.height as int, cb_data.width as int, cr_data.width as int);
    let ghost m = mcu_count as int;
    let ghost body = mcu_body(sub, dims.0, dims.1, dims.2, dims.3, m);
    let ghost before = interleaved_events(sub, dims.0, dims.1, dims.2, dims.3, ri as int, mcu_count as nat);
    let ghost base = before + restart_events(ri as int, m);
    let ghost after = interleaved_events(sub, dims.0, dims.1, dims.2, dims.3, ri as int, (mcu_count + 1) as nat);
    proof {
        assert(after =~= base + body);
        vstd::arithmetic::div_mod::lemma_fundamental_div_mod_converse(m, g.mcus_h as int, mcu_row as int, mcu_col as int);
    }

    // Restart boundary
    if ri > 0 && mcu_count > 0 && mcu_count % ri == 0 {
        let ghost p = scan_fold(before, data, tables, st0);
        let _ = scan_restart(writer, &mut state.rst_counter);
        state.y_prev = 0;
        state.cb_prev = 0;
        state.cr_prev = 0;
        proof {
            lemma_fold_push(before, ScanEvent::Restart, data, tables, st0);
            assert(base =~= before.push(ScanEvent::Restart));
            vstd::arithmetic::div_mod::lemma_add_mod_noop(p.3 as int, 1, 8);
            assert(seq![state.y_prev, state.cb_prev, state.cr_prev] =~= seq![0i16, 0, 0]);
        }
    } else {
        proof {
            assert(base =~= before);
        }
    }

    let r = encode_mcu_luma(y_data, tables4.0, tables4.1, g, mcu_row, mcu_col, state, writer,
        Ghost(sub), Ghost(dims), Ghost(base), Ghost(m), Ghost(data), Ghost(tables), Ghost(st0));
    if r.is_err() {
        return r;
    }

    let ghost ny = (g.hy * g.vy) as int;
    proof {
        assert(mcu_row * g.cb_blocks_h + mcu_col < 8192 * 8192 + 8192) by (nonlinear_arith)
            requires
                mcu_row < g.mcus_v <= 8192,
                mcu_col < g.mcus_h <= 8192,
                g.cb_blocks_h <= 8192,
        ;
        assert(mcu_row * g.cr_blocks_h + mcu_col < 8192 * 8192 + 8192) by (nonlinear_arith)
            requires
                mcu_row < g.mcus_v <= 8192,
                mcu_col < g.mcus_h <= 8192,
                g.cr_blocks_h <= 8192,
        ;
    }

    // Cb block (one per MCU)
    let cb_idx = (mcu_row * g.cb_blocks_h + mcu_col) as usize;
    proof {
        assert(body[ny] == ScanEvent::Block(1, cb_idx));
        assert((base + body.take(ny)).push(ScanEvent::Block(1, cb_idx)) =~= base + body.take(ny + 1));
    }
    let ghost others = (state.y_prev, state.cb_prev, state.cr_prev, state.rst_counter);
    let r = encode_mcu_chroma(&cb_data.quantized, cb_idx, tables4.2, tables4.3, &mut state.cb_prev, writer,
        Ghost(1u8), Ghost(base + body.take(ny)), Ghost(data), Ghost(tables), Ghost(st0), Ghost(others));
    if r.is_err() {
        proof {
            lemma_fault_sticks(base + body.take(ny + 1), body.skip(ny + 1), data, tables, st0);
            assert(after =~= (base + body.take(ny + 1)) + body.skip(ny + 1));
        }
        return r;
    }

    // Cr block (one per MCU)
    let cr_idx = (mcu_row * g.cr_blocks_h + mcu_col) as usize;
    proof {
        assert(body[ny + 1] == ScanEvent::Block(2, cr_idx));
        assert((base + body.take(ny + 1)).push(ScanEvent::Block(2, cr_idx)) =~= base + body.take(ny + 2));
    }
    let ghost others = (state.y_prev, state.cb_prev, state.cr_prev, state.rst_counter);
    let r = encode_mcu_chroma(&cr_data.quantized, cr_idx, tables4.2, tables4.3, &mut state.cr_prev, writer,
        Ghost(2u8), Ghost(base + body.take(ny + 1)), Ghost(data), Ghost(tables), Ghost(st0), Ghost(others));
    proof {
        assert(body.take(ny + 2) =~= body);
    }
    r
}

/// Code the blocks of an interleaved three-component scan MCU by MCU: in
/// each MCU the Hy * Vy luminance blocks it covers (clamped to the block
/// grid at the image edges), then one Cb and one Cr block, with a restart
/// marker before every `restart_interval`-th MCU.
fn encode_interleaved_scan(
    y_data: &ComponentData,
    cb_data: &ComponentData,
    cr_data: &ComponentData,
    config: &EncoderConfig,
    lum_dc_table: &HuffmanTable,
    lum_ac_table: &HuffmanTable,
    chr_dc_table: &HuffmanTable,
    chr_ac_table: &HuffmanTable,
    writer: &mut BitWriter,
) -> (r: Result<(), Error>)
    requires
        old(writer).wf(),
        dc_bounded(y_data.quantized@),
        dc_bounded(cb_data.quantized@),
        dc_bounded(cr_data.quantized@),
        1 <= y_data.width <= 65535,
        1 <= y_data.height <= 65535,
        cb_data.width <= 65535,
        cr_data.width <= 65535,
    ensures
        final(writer).wf(),
        scan_result(
            r,
            final(writer)@,
            scan_fold(
                interleaved_events(
                    config.subsampling,
                    y_data.width as int,
                    y_data.height as int,
                    cb_data.width as int,
                    cr_data.width as int,
                    config.restart_interval as int,
                    (mcus_wide(config.subsampling, y_data.width as int) * mcus_high(config.subsampling, y_data.height as int)) as nat,
                ),
                seq![y_data.quantized@, cb_data.quantized@, cr_data.quantized@],
                seq![*lum_dc_table, *lum_ac_table, *chr_dc_table, *chr_ac_table],
                old(writer)@,
            ),
        ),
{
    let ghost sub = config.subsampling;
    let ghost yw = y_data.width as int;
    let ghost yh = y_data.height as int;
    let ghost cbw = cb_data.width as int;
    let ghost crw = cr_data.width as int;
    let ghost data = seq![y_data.quantized@, cb_data.quantized@, cr_data.quantized@];
    let ghost tables = seq![*lum_dc_table, *lum_ac_table, *chr_dc_table, *chr_ac_table];
    let ghost st0 = writer@;

    let (hy, vy, _, _, _, _) = config.subsampling.factors();
    let h_max = config.subsampling.h_max() as u32;
    let v_max = config.subsampling.v_max() as u32;
    proof {
        crate::types::lemma_luma_has_max_factors(sub);
    }
    // MCU dimensions in blocks are (Hmax, Vmax).
    let y_blocks_h = crate::block::blocks_wide(y_data.width);
    let y_blocks_v = crate::block::blocks_high(y_data.height);
    let g = ScanGrid {
        hy: hy as u32,
        vy: vy as u32,
        h_max,
        v_max,
        y_blocks_h,
        y_blocks_v,
        cb_blocks_h: crate::block::blocks_wide(cb_data.width),
        cr_blocks_h: crate::block::blocks_wide(cr_data.width),
        mcus_h: (y_blocks_h + h_max - 1) / h_max,
        mcus_v: (y_blocks_v + v_max - 1) / v_max,
    };
    let ghost total = (mcus_wide(sub, yw) * mcus_high(sub, yh)) as nat;
    proof {
        lemma_mcu_count(g.y_blocks_h, g.h_max);
        lemma_mcu_count(g.y_blocks_v, g.v_max);
        assert(grid_ok(g, sub, yw, yh, cbw, crw));
        assert(total <= 8192 * 8192) by (nonlinear_arith)
            requires
                total == g.mcus_h * g.mcus_v,
                g.mcus_h <= 8192,
                g.mcus_v <= 8192,
        ;
    }

    let ri = config.restart_interval as usize;
    let mut state = ScanState { y_prev: 0, cb_prev: 0, cr_prev: 0, rst_counter: 0 };
    let mut mcu_count: usize = 0;
    let mut mcu_row: u32 = 0;
    while mcu_row < g.mcus_v
        invariant
            mcu_row <= g.mcus_v,
            writer.wf(),
            grid_ok(g, sub, yw, yh, cbw, crw),
            sub == config.subsampling,
            yw == y_data.width && yh == y_data.height && cbw == cb_data.width && crw == cr_data.width,
            ri == config.restart_interval,
            data == seq![y_data.quantized@, cb_data.quantized@, cr_data.quantized@],
            tables == seq![*lum_dc_table, *lum_ac_table, *chr_dc_table, *chr_ac_table],
            st0 == old(writer)@,
            dc_bounded(data[0]) && dc_bounded(data[1]) && dc_bounded(data[2]),
            state_ready(data[0], data[1], data[2], state),
            total == g.mcus_h * g.mcus_v,
            total <= 8192 * 8192,
            mcu_count == mcu_row * g.mcus_h,
            state_matches(scan_fold(interleaved_events(sub, yw, yh, cbw, crw, ri as int, mcu_count as nat), data, tables, st0), writer@, state),
        decreases g.mcus_v - mcu_row,
    {
        let mut mcu_col: u32 = 0;
        while mcu_col < g.mcus_h
            invariant
                mcu_col <= g.mcus_h,
                mcu_row < g.mcus_v,
                writer.wf(),
                grid_ok(g, sub, yw, yh, cbw, crw),
                sub == config.subsampling,
                yw == y_data.width && yh == y_data.height && cbw == cb_data.width && crw == cr_data.width,
                ri == config.restart_interval,
                data == seq![y_data.quantized@, cb_data.quantized@, cr_data.quantized@],
                tables == seq![*lum_dc_table, *lum_ac_table, *chr_dc_table, *chr_ac_table],
                st0 == old(writer)@,
                dc_bounded(data[0]) && dc_bounded(data[1]) && dc_bounded(data[2]),
                state_ready(data[0], data[1], data[2], state),
                total == g.mcus_h * g.mcus_v,
                total <= 8192 * 8192,
                mcu_count == mcu_row * g.mcus_h + mcu_col,
                state_matches(scan_fold(interleaved_events(sub, yw, yh, cbw, crw, ri as int, mcu_count as nat), data, tables, st0), writer@, state),
            decreases g.mcus_h - mcu_col,
        {
            proof {
                assert(mcu_count < total) by (nonlinear_arith)
                    requires
                        mcu_count == mcu_row * g.mcus_h + mcu_col,
                        mcu_col < g.mcus_h,
                        mcu_row < g.mcus_v,
                        total == g.mcus_h * g.mcus_v,
                ;
            }
            let r = encode_mcu(y_data, cb_data, cr_data, (lum_dc_table, lum_ac_table, chr_dc_table, chr_ac_table),
                &g, ri, mcu_row, mcu_col, mcu_count, &mut state, writer,
                Ghost(sub), Ghost(data), Ghost(tables), Ghost(st0));
            if r.is_err() {
                proof {
                    lemma_interleaved_fault_sticks(sub, yw, yh, cbw, crw, ri as int, (mcu_count + 1) as nat, total, data, tables, st0);
                }
                return r;
            }
            mcu_count += 1;
            mcu_col += 1;
        }
        proof {
            assert(mcu_count == (mcu_row + 1) * g.mcus_h) by (nonlinear_arith)
                requires
                    mcu_count == mcu_row * g.mcus_h + g.mcus_h,
            ;
        }
        mcu_row += 1;
    }
    proof {
        assert(mcu_count == total) by (nonlinear_arith)
            requires
                mcu_count == mcu_row * g.mcus_h,
                mcu_row == g.mcus_v,
                total == g.mcus_h * g.mcus_v,
        ;
    }
    Ok(())
}

/// One more event naming one of the three components keeps a list of
/// events within the components.
proof fn lemma_push_component(a: Seq<ScanEvent>, e: ScanEvent)
    requires
        components_ok(a),
        match e {
            ScanEvent::Block(c, _) => c < 3,
            ScanEvent::Restart => true,
        },
    ensures
        components_ok(a.push(e)),
{
    assert forall|j: int| 0 <= j < a.push(e).len() implies match #[trigger] a.push(e)[j] {
        ScanEvent::Block(c, _) => c < 3,
        ScanEvent::Restart => true,
    } by {
        if j < a.len() {
            assert(a.push(e)[j] == a[j]);
        }
    }
}

/// One more restart or luminance block keeps a list of luminance events.
proof fn lemma_push_luma(a: Seq<ScanEvent>, e: ScanEvent)
    requires
        luma_only(a),
        match e {
            ScanEvent::Block(c, _) => c == 0,
            ScanEvent::Restart => true,
        },
    ensures
        luma_only(a.push(e)),
{
    assert forall|j: int| 0 <= j < a.push(e).len() implies match #[trigger] a.push(e)[j] {
        ScanEvent::Block(c, _) => c == 0,
        ScanEvent::Restart => true,
    } by {
        if j < a.len() {
            assert(a.push(e)[j] == a[j]);
        }
    }
}

/// Append the events of MCU (mcu_row, mcu_col): the restart marker before
/// it, if any, its luminance blocks in raster order (clamped to the block
/// grid), then its Cb and Cr blocks.
#[verifier::rlimit(40)]
fn push_mcu_events(
    events: &mut Vec<ScanEvent>,
    g: &ScanGrid,
    ri: usize,
    mcu_row: u32,
    mcu_col: u32,
    mcu_count: usize,
    Ghost(sub): Ghost<Subsampling>,
    Ghost(dims): Ghost<(int, int, int, int)>,
)
    requires
        grid_ok(*g, sub, dims.0, dims.1, dims.2, dims.3),
        mcu_row < g.mcus_v,
        mcu_col < g.mcus_h,
        mcu_count == mcu_row * g.mcus_h + mcu_col,
        old(events)@ == interleaved_events(sub, dims.0, dims.1, dims.2, dims.3, ri as int, mcu_count as nat),
        components_ok(old(events)@),
    ensures
        final(events)@ == interleaved_events(sub, dims.0, dims.1, dims.2, dims.3, ri as int, (mcu_count + 1) as nat),
        components_ok(final(events)@),
{
    let ghost m = mcu_count as int;
    let ghost body = mcu_body(sub, dims.0, dims.1, dims.2, dims.3, m);
    let ghost before = interleaved_events(sub, dims.0, dims.1, dims.2, dims.3, ri as int, mcu_count as nat);
    let ghost base = before + restart_events(ri as int, m);
    let ghost after = interleaved_events(sub, dims.0, dims.1, dims.2, dims.3, ri as int, (mcu_count + 1) as nat);
    proof {
        assert(after =~= base + body);
        vstd::arithmetic::div_mod::lemma_fundamental_div_mod_converse(m, g.mcus_h as int, mcu_row as int, mcu_col as int);
    }
    if ri > 0 && mcu_count > 0 && mcu_count % ri == 0 {
        proof {
            lemma_push_component(events@, ScanEvent::Restart);
        }
        events.push(ScanEvent::Restart);
        proof {
            assert(events@ =~= base);
        }
    } else {
        proof {
            assert(base =~= before);
        }
    }
    proof {
        assert(events@ =~= base + body.take(0));
    }
    let mut v: u32 = 0;
    while v < g.vy
        invariant
            v <= g.vy,
            mcu_row < g.mcus_v,
            mcu_col < g.mcus_h,
            grid_ok(*g, sub, dims.0, dims.1, dims.2, dims.3),
            m == mcu_row * g.mcus_h + mcu_col,
            m / (g.mcus_h as int) == mcu_row && m % (g.mcus_h as int) == mcu_col,
            body == mcu_body(sub, dims.0, dims.1, dims.2, dims.3, m),
            events@ == base + body.take(v * g.hy),
            components_ok(events@),
        decreases g.vy - v,
    {
        let mut h: u32 = 0;
        while h < g.hy
            invariant
                h <= g.hy,
                v < g.vy,
                mcu_row < g.mcus_v,
                mcu_col < g.mcus_h,
                grid_ok(*g, sub, dims.0, dims.1, dims.2, dims.3),
                m == mcu_row * g.mcus_h + mcu_col,
                m / (g.mcus_h as int) == mcu_row && m % (g.mcus_h as int) == mcu_col,
                body == mcu_body(sub, dims.0, dims.1, dims.2, dims.3, m),
                events@ == base + body.take(v * g.hy + h),
                components_ok(events@),
            decreases g.hy - h,
        {
            proof {
                assert(mcu_row * g.v_max + v < 16400 && mcu_col * g.h_max + h < 16400) by (nonlinear_arith)
                    requires
                        mcu_row < g.mcus_v <= 8192,
                        mcu_col < g.mcus_h <= 8192,
                        v < g.v_max <= 2,
                        h < g.h_max <= 2,
                ;
            }
            let block_row = mcu_row * g.v_max + v;
            let block_col = mcu_col * g.h_max + h;
            let br = if block_row < g.y_blocks_v - 1 { block_row } else { g.y_blocks_v - 1 };
            let bc = if block_col < g.y_blocks_h - 1 { block_col } else { g.y_blocks_h - 1 };
            proof {
                assert(br * g.y_blocks_h + bc < 8192 * 8192) by (nonlinear_arith)
                    requires
                        br < g.y_blocks_v <= 8192,
                        bc < g.y_blocks_h <= 8192,
                ;
            }
            let idx = (br * g.y_blocks_h + bc) as usize;
            let ghost k = v * g.hy + h;
            proof {
                assert(k < g.hy * g.vy) by (nonlinear_arith)
                    requires
                        k == v * g.hy + h,
                        v < g.vy,
                        h < g.hy,
                ;
                vstd::arithmetic::div_mod::lemma_fundamental_div_mod_converse(k as int, g.hy as int, v as int, h as int);
                assert(body[k as int] == ScanEvent::Block(0, idx));
                lemma_push_component(events@, ScanEvent::Block(0, idx));
            }
            events.push(ScanEvent::Block(0, idx));
            proof {
                assert(events@ =~= base + body.take(k + 1));
                assert(v * g.hy + (h + 1) == k + 1);
            }
            h = h + 1;
        }
        proof {
            assert((v + 1) * g.hy == v * g.hy + g.hy) by (nonlinear_arith);
        }
        v = v + 1;
    }
    let ghost ny = (g.hy * g.vy) as int;
    proof {
        assert(v * g.hy == g.hy * g.vy) by (nonlinear_arith)
            requires
                v == g.vy,
        ;
        assert(mcu_row * g.cb_blocks_h + mcu_col < 8192 * 8192 + 8192) by (nonlinear_arith)
            requires
                mcu_row < g.mcus_v <= 8192,
                mcu_col < g.mcus_h <= 8192,
                g.cb_blocks_h <= 8192,
        ;
        assert(mcu_row * g.cr_blocks_h + mcu_col < 8192 * 8192 + 8192) by (nonlinear_arith)
            requires
                mcu_row < g.mcus_v <= 8192,
                mcu_col < g.mcus_h <= 8192,
                g.cr_blocks_h <= 8192,
        ;
    }
    let cb_idx = (mcu_row * g.cb_blocks_h + mcu_col) as usize;
    proof {
        assert(body[ny] == ScanEvent::Block(1, cb_idx));
        lemma_push_component(events@, ScanEvent::Block(1, cb_idx));
    }
    events.push(ScanEvent::Block(1, cb_idx));
    proof {
        assert(events@ =~= base + body.take(ny + 1));
    }
    let cr_idx = (mcu_row * g.cr_blocks_h + mcu_col) as usize;
    proof {
        assert(body[ny + 1] == ScanEvent::Block(2, cr_idx));
        lemma_push_component(events@, ScanEvent::Block(2, cr_idx));
    }
    events.push(ScanEvent::Block(2, cr_idx));
    proof {
        assert(events@ =~= base + body.take(ny + 2));
        assert(body.take(ny + 2) =~= body);
    }
}

/// The events of the interleaved scan of the three components, in order:
/// MCU by MCU, as `encode_interleaved_scan` codes them.
#[verifier::rlimit(40)]
fn interleaved_event_list(y_width: u32, y_height: u32, cb_width: u32, cr_width: u32, config: &EncoderConfig) -> (v: Vec<ScanEvent>)
    requires
        1 <= y_width <= 65535,
        1 <= y_height <= 65535,
        cb_width <= 65535,
        cr_width <= 65535,
    ensures
        v@ == interleaved_events(
            config.subsampling,
            y_width as int,
            y_height as int,
            cb_width as int,
            cr_width as int,
            config.restart_interval as int,
            (mcus_wide(config.subsampling, y_width as int) * mcus_high(config.subsampling, y_height as int)) as nat,
        ),
        components_ok(v@),
{
    let ghost sub = config.subsampling;
    let ghost yw = y_width as int;
    let ghost yh = y_height as int;
    let ghost cbw = cb_width as int;
    let ghost crw = cr_width as int;
    let (hy, vy, _, _, _, _) = config.subsampling.factors();
    let h_max = config.subsampling.h_max() as u32;
    let v_max = config.subsampling.v_max() as u32;
    proof {
        crate::types::lemma_luma_has_max_factors(sub);
    }
    let y_blocks_h = crate::block::blocks_wide(y_width);
    let y_blocks_v = crate::block::blocks_high(y_height);
    let g = ScanGrid {
        hy: hy as u32,
        vy: vy as u32,
        h_max,
        v_max,
        y_blocks_h,
        y_blocks_v,
        cb_blocks_h: crate::block::blocks_wide(cb_width),
        cr_blocks_h: crate::block::blocks_wide(cr_width),
        mcus_h: (y_blocks_h + h_max - 1) / h_max,
        mcus_v: (y_blocks_v + v_max - 1) / v_max,
    };
    let ghost total = (mcus_wide(sub, yw) * mcus_high(sub, yh)) as nat;
    proof {
        lemma_mcu_count(g.y_blocks_h, g.h_max);
        lemma_mcu_count(g.y_blocks_v, g.v_max);
        assert(g.hy == sub.spec_factors().0 && g.vy == sub.spec_factors().1);
        assert(g.h_max == sub.spec_h_max() && g.v_max == sub.spec_v_max());
        assert(1 <= g.y_blocks_h <= 8192 && 1 <= g.y_blocks_v <= 8192);
        assert(g.cb_blocks_h <= 8192 && g.cr_blocks_h <= 8192);
        assert(g.mcus_h == mcus_wide(sub, yw));
        assert(g.mcus_v == mcus_high(sub, yh));
        assert(1 <= g.mcus_h <= g.y_blocks_h && g.mcus_v <= g.y_blocks_v);
        assert(grid_ok(g, sub, yw, yh, cbw, crw));
        assert(total <= 8192 * 8192) by (nonlinear_arith)
            requires
                total == g.mcus_h * g.mcus_v,
                g.mcus_h <= 8192,
                g.mcus_v <= 8192,
        ;
    }
    let ri = config.restart_interval as usize;
    let mut events: Vec<ScanEvent> = Vec::new();
    let mut mcu_count: usize = 0;
    let mut mcu_row: u32 = 0;
    proof {
        assert(events@ =~= interleaved_events(sub, yw, yh, cbw, crw, ri as int, 0));
    }
    while mcu_row < g.mcus_v
        invariant
            mcu_row <= g.mcus_v,
            grid_ok(g, sub, yw, yh, cbw, crw),
            sub == config.subsampling,
            yw == y_width && yh == y_height && cbw == cb_width && crw == cr_width,
            ri == config.restart_interval,
            total == g.mcus_h * g.mcus_v,
            total <= 8192 * 8192,
            mcu_count == mcu_row * g.mcus_h,
            events@ == interleaved_events(sub, yw, yh, cbw, crw, ri as int, mcu_count as nat),
            components_ok(events@),
        decreases g.mcus_v - mcu_row,
    {
        let mut mcu_col: u32 = 0;
        while mcu_col < g.mcus_h
            invariant
                mcu_col <= g.mcus_h,
                mcu_row < g.mcus_v,
                grid_ok(g, sub, yw, yh, cbw, crw),
                sub == config.subsampling,
                yw == y_width && yh == y_height && cbw == cb_width && crw == cr_width,
                ri == config.restart_interval,
                total == g.mcus_h * g.mcus_v,
                total <= 8192 * 8192,
                mcu_count == mcu_row * g.mcus_h + mcu_col,
                events@ == interleaved_events(sub, yw, yh, cbw, crw, ri as int, mcu_count as nat),
                components_ok(events@),
            decreases g.mcus_h - mcu_col,
        {
            proof {
                assert(mcu_count < total) by (nonlinear_arith)
                    requires
                        mcu_count == mcu_row * g.mcus_h + mcu_col,
                        mcu_col < g.mcus_h,
                        mcu_row < g.mcus_v,
                        total == g.mcus_h * g.mcus_v,
                ;
            }
            push_mcu_events(&mut events, &g, ri, mcu_row, mcu_col, mcu_count, Ghost(sub), Ghost((yw, yh, cbw, crw)));
            mcu_count += 1;
            mcu_col += 1;
        }
        proof {
            assert(mcu_count == (mcu_row + 1) * g.mcus_h) by (nonlinear_arith)
                requires
                    mcu_count == mcu_row * g.mcus_h + g.mcus_h,
            ;
        }
        mcu_row += 1;
    }
    proof {
        assert(mcu_count == total) by (nonlinear_arith)
            requires
                mcu_count == mcu_row * g.mcus_h,
                mcu_row == g.mcus_v,
                total == g.mcus_h * g.mcus_v,
        ;
    }
    events
}

/// The events of a single-component scan of `n` blocks, in order: each
/// block, with a restart marker before every `restart_interval`-th one.
fn grayscale_event_list(ri: u16, n: usize) -> (v: Vec<ScanEvent>)
    ensures
        v@ == grayscale_events(ri as int, n as nat),
        components_ok(v@),
        luma_only(v@),
{
    let mut events: Vec<ScanEvent> = Vec::new();
    let mut i: usize = 0;
    let r = ri as usize;
    proof {
        assert(events@ =~= grayscale_events(ri as int, 0));
    }
    while i < n
        invariant
            i <= n,
            r == ri,
            events@ == grayscale_events(ri as int, i as nat),
            components_ok(events@),
            luma_only(events@),
        decreases n - i,
    {
        let ghost before = events@;
        if r > 0 && i > 0 && i % r == 0 {
            proof {
                lemma_push_component(events@, ScanEvent::Restart);
                lemma_push_luma(events@, ScanEvent::Restart);
            }
            events.push(ScanEvent::Restart);
        }
        proof {
            assert(events@ =~= before + restart_events(ri as int, i as int));
            lemma_push_component(events@, ScanEvent::Block(0, i));
            lemma_push_luma(events@, ScanEvent::Block(0, i));
        }
        events.push(ScanEvent::Block(0, i));
        proof {
            assert(grayscale_events(ri as int, (i + 1) as nat) == grayscale_events(ri as int, i as nat) + restart_events(ri as int, i as int) + seq![ScanEvent::Block(0, i)]);
            assert(events@ =~= grayscale_events(ri as int, (i + 1) as nat));
        }
        i = i + 1;
    }
    events
}

/// With a DC step of at least 1, every coded block's DC coefficient lies in
/// -1024..=1024.
proof fn lemma_coded_dc_bounded(data: Seq<[i16; 64]>, plane: Seq<u8>, width: int, height: int, q: Seq<u16>)
    requires
        codes_plane(data, plane, width, height, q),
        q.len() == 64,
        q[0] >= 1,
    ensures
        dc_bounded(data),
        forall|b: int| 0 <= b < data.len() ==> -1024 <= #[trigger] data[b]@[0] <= 1024,
{
    reveal(codes_plane);
    crate::quantize::lemma_zig_zag_is_permutation();
    assert forall|b: int| 0 <= b < data.len() implies -1024 <= #[trigger] data[b]@[0] <= 1024 by {
        let s = plane_block(plane, width, height, b);
        assert forall|i: int| 0 <= i < 64 implies -128 <= #[trigger] s[i] <= 127 by {}
        crate::dct::lemma_dc_range(s);
        let c = fdct_value(s, 0, 0);
        assert(data[b]@[0] == coded_block(plane, width, height, q, b)[0]);
        assert(coded_block(plane, width, height, q, b)[0] == rounded_quotient(c as i16 as int, q[0] as int) as i16);
        assert(c as i16 as int == c);
        if c >= 0 {
            crate::quantize::lemma_rounded_quotient_bound(c, q[0] as int);
        } else {
            crate::quantize::lemma_rounded_quotient_bound(-c, q[0] as int);
        }
    }
}

/// A base table scaled for `quality`, natural order.
pub open spec fn scaled_table(base: Seq<u16>, quality: u8) -> Seq<u16> {
    Seq::new(64, |i: int| scaled_entry(base[i], quality))
}

/// A natural-order table in zig-zag order.
pub open spec fn zigzag_order(t: Seq<u16>) -> Seq<u16> {
    Seq::new(64, |k: int| t[ZIG_ZAG[k] as int])
}

/// Element-wise sum of two count lists, saturating at u32::MAX.
pub open spec fn sum_counts(a: Seq<u32>, b: Seq<u32>) -> Seq<u32> {
    Seq::new(a.len(), |i: int| if a[i] + b[i] > u32::MAX { u32::MAX } else { (a[i] + b[i]) as u32 })
}

/// The end of the file after the scan: the pending bits padded with ones,
/// then EOI.
pub open spec fn finish(p: ScanProgress) -> Seq<u8> {
    flush_state(p.1).0 + be16(MARKER_EOI)
}

/// The encoder returned the file that the scan's progress `p` ends, or the
/// scan's first fault.
pub open spec fn file_result(r: Result<Vec<u8>, Error>, p: ScanProgress) -> bool {
    match p.0 {
        None => match r {
            Ok(bytes) => bytes@ == finish(p),
            Err(_) => false,
        },
        Some(f) => match r {
            Ok(_) => false,
            Err(e) => crate::entropy::symbols::fault_error(Err::<(), Error>(e), f),
        },
    }
}

/// The headers of a grayscale file, up to the scan.
pub open spec fn gray_headers(image: RawImage, config: EncoderConfig, qt: Seq<u16>, dc: HuffmanTable, ac: HuffmanTable) -> Seq<u8> {
    be16(MARKER_SOI) + app0_bytes(config) + dqt_bytes(0, qt) + sof0_bytes(
        image.width as u16,
        image.height as u16,
        seq![FrameComponent { id: 1, h_sampling: 1, v_sampling: 1, quant_table_id: 0 }],
    ) + dht_bytes(0, 0, dc.bits@, dc.values@) + dht_bytes(1, 0, ac.bits@, ac.values@) + dri_bytes(
        config.restart_interval,
    ) + sos_bytes(seq![ScanComponent { selector: 1, dc_table_id: 0, ac_table_id: 0 }])
}

/// `r` is the grayscale encoding of `image` with the coded blocks `data`
/// and the Huffman tables `dc`, `ac` built from the symbol counts of the scan.
pub open spec fn grayscale_witness(image: RawImage, config: EncoderConfig, r: Result<Vec<u8>, Error>, data: Seq<[i16; 64]>, dc: HuffmanTable, ac: HuffmanTable) -> bool {
    let lum = scaled_table(STD_LUMINANCE_QUANT@, config.quality);
    let events = grayscale_events(config.restart_interval as int, data.len());
    let all = seq![data, data, data];
    &&& codes_plane(data, image.data@, image.width as int, image.height as int, lum)
    &&& built_from(dc, scan_counts(events, all, 0, false), 15)
    &&& built_from(ac, scan_counts(events, all, 0, true), 255)
    &&& file_result(
        r,
        scan_fold(
            events,
            all,
            seq![dc, ac, dc, ac],
            (gray_headers(image, config, zigzag_order(lum), dc, ac), Seq::empty()),
        ),
    )
}

/// `r` is a grayscale encoding of `image`: the coded blocks are determined
/// by the image; the Huffman tables are any that `build_table` may return
/// for the symbol counts of the scan.
pub open spec fn grayscale_encoding(image: RawImage, config: EncoderConfig, r: Result<Vec<u8>, Error>) -> bool {
    exists|data: Seq<[i16; 64]>, dc: HuffmanTable, ac: HuffmanTable| #[trigger] grayscale_witness(image, config, r, data, dc, ac)
}

/// Facts about a valid image's component planes: they fit and have at
/// most 2^26 blocks.
proof fn lemma_valid_plane(len: int, w: int, h: int)
    requires
        1 <= w <= 65535,
        1 <= h <= 65535,
        len == w * h,
    ensures
        plane_fits_len(len, w, h),
        block_count(w) * block_count(h) <= 8192 * 8192,
        1 <= block_count(w) <= 8192 && 1 <= block_count(h) <= 8192,
{
    assert(w * h <= 65535 * 65535) by (nonlinear_arith)
        requires
            1 <= w <= 65535,
            1 <= h <= 65535,
    ;
    assert(block_count(w) * block_count(h) <= 8192 * 8192) by (nonlinear_arith)
        requires
            1 <= block_count(w) <= 8192,
            1 <= block_count(h) <= 8192,
    ;
}

/// A plane of `len` samples holds a `w` * `h` plane that 32-bit indexes
/// reach.
pub open spec fn plane_fits_len(len: int, w: int, h: int) -> bool {
    1 <= w && 1 <= h && w * h <= len && w * h <= u32::MAX
}

/// Encode a grayscale image: SOI, APP0, one DQT, SOF0 with one component,
/// two DHT, DRI, SOS, the scan, EOI.
#[verifier::rlimit(40)]
fn encode_grayscale(image: &RawImage, config: &EncoderConfig) -> (r: Result<Vec<u8>, Error>)
    requires
        image.valid(),
        config.valid(),
        image.color_space == ColorSpace::Grayscale,
    ensures
        grayscale_encoding(*image, *config, r),
        r is Ok,
{
    let w = image.width;
    let h = image.height;

    let y_plane = grayscale_to_y_plane(image.data);
    let lum_qt = QuantTable::from_standard(&STD_LUMINANCE_QUANT, config.quality);
    let ghost lum = scaled_table(STD_LUMINANCE_QUANT@, config.quality);
    proof {
        lemma_valid_plane(y_plane@.len() as int, w as int, h as int);
        assert(lum_qt.natural() =~= lum);
        crate::quantize::lemma_scaled_entry_range(STD_LUMINANCE_QUANT@[0], config.quality);
    }

    let y_data = process_component(&y_plane, w, h, &lum_qt);
    proof {
        reveal(codes_plane);
        lemma_coded_dc_bounded(y_data.quantized@, y_plane@, w as int, h as int, lum);
    }
    // Optimised Huffman tables from the symbols that the scan will code.
    let events = grayscale_event_list(config.restart_interval, y_data.quantized.len());
    let counts = count_scan(&events, &y_data.quantized, &y_data.quantized, &y_data.quantized);
    let dc_table = build_table(&counts.y_dc, MAX_DC_CATEGORIES - 1);
    let ac_table = build_table(&counts.y_ac, 255);

    let est_size = (w as usize * h as usize) / 2;
    let mut writer = BitWriter::with_capacity(est_size);
    let ghost zz = zigzag_order(lum);
    proof {
        assert(lum_qt.zigzag_values@ =~= zz);
    }

    let _ = marker::write_soi(&mut writer);
    let _ = marker::write_app0_jfif(&mut writer, config);
    let _ = marker::write_dqt(&mut writer, 0, &lum_qt);
    let frame_components = [FrameComponent { id: 1, h_sampling: 1, v_sampling: 1, quant_table_id: 0 }];
    let _ = marker::write_sof0(&mut writer, w as u16, h as u16, &frame_components);
    let _ = marker::write_dht(&mut writer, 0, 0, &dc_table);
    let _ = marker::write_dht(&mut writer, 1, 0, &ac_table);
    let _ = marker::write_dri(&mut writer, config.restart_interval);
    let scan_components = [ScanComponent { selector: 1, dc_table_id: 0, ac_table_id: 0 }];
    let _ = marker::write_sos(&mut writer, &scan_components);
    proof {
        assert(frame_components@ =~= seq![FrameComponent { id: 1, h_sampling: 1, v_sampling: 1, quant_table_id: 0 }]);
        assert(scan_components@ =~= seq![ScanComponent { selector: 1, dc_table_id: 0, ac_table_id: 0 }]);
        assert(writer@.0 =~= gray_headers(*image, *config, zz, dc_table, ac_table));
        assert(writer@.1 =~= Seq::<bool>::empty());
    }
    let ghost st0 = writer@;

    let scan = encode_grayscale_scan(&y_data, config.restart_interval, &dc_table, &ac_table, &mut writer);
    let ghost all = seq![y_data.quantized@, y_data.quantized@, y_data.quantized@];
    let ghost tables = seq![dc_table, ac_table, dc_table, ac_table];
    let ghost p = scan_fold(events@, all, tables, st0);
    proof {
        let toks = scan_tokens(events@, all);
        lemma_scan_tokens_len(events@, all);
        lemma_scan_dc_symbols(events@, all, 0);
        lemma_counted_tokens_coded(toks.0[0], dc_table, ac_table, counts.y_dc@, counts.y_ac@);
        lemma_luma_only_streams(events@, all);
        lemma_scan_clean(events@, all, tables, st0);
    }
    if let Err(e) = scan {
        let r = Err(e);
        proof {
            assert(grayscale_witness(*image, *config, r, y_data.quantized@, dc_table, ac_table));
        }
        return r;
    }
    let _ = writer.flush_with_ones();
    let _ = marker::write_eoi(&mut writer);
    let r = Ok(writer.into_bytes());
    proof {
        assert(grayscale_witness(*image, *config, r, y_data.quantized@, dc_table, ac_table));
    }
    r
}

/// The frame components of a color image: Y with the luminance sampling
/// factors and table 0, Cb and Cr at 1 * 1 with table 1.
pub open spec fn color_frame(sub: Subsampling) -> Seq<FrameComponent> {
    seq![
        FrameComponent { id: 1, h_sampling: sub.spec_factors().0, v_sampling: sub.spec_factors().1, quant_table_id: 0 },
        FrameComponent { id: 2, h_sampling: 1, v_sampling: 1, quant_table_id: 1 },
        FrameComponent { id: 3, h_sampling: 1, v_sampling: 1, quant_table_id: 1 },
    ]
}

/// The scan components of a color image: Y with tables 0, Cb and Cr with
/// tables 1.
pub open spec fn color_scan() -> Seq<ScanComponent> {
    seq![
        ScanComponent { selector: 1, dc_table_id: 0, ac_table_id: 0 },
        ScanComponent { selector: 2, dc_table_id: 1, ac_table_id: 1 },
        ScanComponent { selector: 3, dc_table_id: 1, ac_table_id: 1 },
    ]
}

/// The headers of a color file, up to the scan.
pub open spec fn color_headers(
    image: RawImage, config: EncoderConfig, lum: Seq<u16>, chr: Seq<u16>,
    t: (HuffmanTable, HuffmanTable, HuffmanTable, HuffmanTable),
) -> Seq<u8> {
    be16(MARKER_SOI) + app0_bytes(config) + dqt_bytes(0, lum) + dqt_bytes(1, chr)
        + sof0_bytes(image.width as u16, image.height as u16, color_frame(config.subsampling))
        + dht_bytes(0, 0, t.0.bits@, t.0.values@) + dht_bytes(1, 0, t.1.bits@, t.1.values@)
        + dht_bytes(0, 1, t.2.bits@, t.2.values@) + dht_bytes(1, 1, t.3.bits@, t.3.values@)
        + dri_bytes(config.restart_interval) + sos_bytes(color_scan())
}

/// `r` is the color encoding of `image` with coded blocks `d` (Y, Cb, Cr)
/// and Huffman tables `t` (luminance DC, AC, chrominance DC, AC) built from
/// the symbol counts of the scan; Cb and Cr share the chrominance tables.
pub open spec fn color_witness(
    image: RawImage, config: EncoderConfig, r: Result<Vec<u8>, Error>,
    d: (Seq<[i16; 64]>, Seq<[i16; 64]>, Seq<[i16; 64]>),
    t: (HuffmanTable, HuffmanTable, HuffmanTable, HuffmanTable),
) -> bool {
    let w = image.width as int;
    let h = image.height as int;
    let planes = planes_of(image.data@);
    let ratios = chroma_ratios(config.subsampling);
    let cw = ceil_div(w, ratios.0 as int);
    let ch = ceil_div(h, ratios.1 as int);
    let cb = downsampled(planes.1, w, h, ratios.0 as nat, ratios.1 as nat);
    let cr = downsampled(planes.2, w, h, ratios.0 as nat, ratios.1 as nat);
    let lum = scaled_table(STD_LUMINANCE_QUANT@, config.quality);
    let chr = scaled_table(STD_CHROMINANCE_QUANT@, config.quality);
    let events = interleaved_events(config.subsampling, w, h, cw, cw, config.restart_interval as int,
        (mcus_wide(config.subsampling, w) * mcus_high(config.subsampling, h)) as nat);
    let all = seq![d.0, d.1, d.2];
    &&& codes_plane(d.0, planes.0, w, h, lum)
    &&& codes_plane(d.1, cb, cw, ch, chr)
    &&& codes_plane(d.2, cr, cw, ch, chr)
    &&& built_from(t.0, scan_counts(events, all, 0, false), 15)
    &&& built_from(t.1, scan_counts(events, all, 0, true), 255)
    &&& built_from(t.2, sum_counts(scan_counts(events, all, 1, false), scan_counts(events, all, 2, false)), 15)
    &&& built_from(t.3, sum_counts(scan_counts(events, all, 1, true), scan_counts(events, all, 2, true)), 255)
    &&& file_result(
        r,
        scan_fold(
            events,
            all,
            seq![t.0, t.1, t.2, t.3],
            (color_headers(image, config, zigzag_order(lum), zigzag_order(chr), t), Seq::empty()),
        ),
    )
}

/// `r` is a color encoding of `image`: the coded blocks are determined by
/// the image; the Huffman tables are any that `build_table` may return for
/// the symbol counts of the scan.
pub open spec fn color_encoding(image: RawImage, config: EncoderConfig, r: Result<Vec<u8>, Error>) -> bool {
    exists|d: (Seq<[i16; 64]>, Seq<[i16; 64]>, Seq<[i16; 64]>), t: (HuffmanTable, HuffmanTable, HuffmanTable, HuffmanTable)|
        #[trigger] color_witness(image, config, r, d, t)
}

/// Element-wise saturating sum of two count arrays.
fn sum_count_arrays(a: &[u32], b: &[u32], out: &mut [u32])
    requires
        a@.len() == old(out)@.len(),
        b@.len() == old(out)@.len(),
    ensures
        final(out)@ == sum_counts(a@, b@),
{
    let mut i: usize = 0;
    while i < out.len()
        invariant
            i <= out@.len(),
            a@.len() == out@.len(),
            b@.len() == out@.len(),
            out@.len() == old(out)@.len(),
            forall|j: int| 0 <= j < i ==> #[trigger] out@[j] == sum_counts(a@, b@)[j],
        decreases out@.len() - i,
    {
        out[i] = a[i].saturating_add(b[i]);
        i = i + 1;
    }
    assert(out@ =~= sum_counts(a@, b@));
}

/// The coded blocks of the three components of an RGB image.
#[verifier::rlimit(40)]
fn code_color_components(image: &RawImage, config: &EncoderConfig, lum_qt: &QuantTable, chr_qt: &QuantTable)
    -> (d: (ComponentData, ComponentData, ComponentData))
    requires
        image.valid(),
        config.valid(),
        image.color_space == ColorSpace::Rgb,
        lum_qt.natural() == scaled_table(STD_LUMINANCE_QUANT@, config.quality),
        chr_qt.natural() == scaled_table(STD_CHROMINANCE_QUANT@, config.quality),
    ensures
        ({
            let w = image.width as int;
            let h = image.height as int;
            let planes = planes_of(image.data@);
            let ratios = chroma_ratios(config.subsampling);
            let cw = ceil_div(w, ratios.0 as int);
            let ch = ceil_div(h, ratios.1 as int);
            &&& d.0.width == w && d.0.height == h
            &&& d.1.width == cw && d.2.width == cw
            &&& 1 <= cw <= 65535
            &&& codes_plane(d.0.quantized@, planes.0, w, h, lum_qt.natural())
            &&& codes_plane(d.1.quantized@, downsampled(planes.1, w, h, ratios.0 as nat, ratios.1 as nat), cw, ch, chr_qt.natural())
            &&& codes_plane(d.2.quantized@, downsampled(planes.2, w, h, ratios.0 as nat, ratios.1 as nat), cw, ch, chr_qt.natural())
            &&& dc_bounded(d.0.quantized@) && dc_bounded(d.1.quantized@) && dc_bounded(d.2.quantized@)
        }),
{
    let w = image.width;
    let h = image.height;

    // Color conversion
    let (y_plane, cb_plane, cr_plane) = rgb_to_ycbcr_planar(image.data, w, h);
    proof {
        assert(image.data@.len() / 3 == w * h);
        lemma_valid_plane(y_plane@.len() as int, w as int, h as int);
        crate::types::lemma_luma_has_max_factors(config.subsampling);
    }

    // Chroma subsampling
    let (cb_sub, cb_w, cb_h, cr_sub, cr_w, cr_h) = subsample_chroma(&cb_plane, &cr_plane, w, h, config.subsampling);
    proof {
        let ratios = chroma_ratios(config.subsampling);
        assert(ratios.0 == 1 || ratios.0 == 2);
        assert(ratios.1 == 1 || ratios.1 == 2);
        if ratios.0 == 1 {
            lemma_ceil_div_one(w as int);
            assert(cb_w == w);
        } else {
            assert(cb_w == (w + 1) / 2);
            vstd::arithmetic::div_mod::lemma_fundamental_div_mod(w + 1, 2);
            assert(1 <= (w + 1) / 2 <= w);
        }
        if ratios.1 == 1 {
            lemma_ceil_div_one(h as int);
            assert(cb_h == h);
        } else {
            assert(cb_h == (h + 1) / 2);
            vstd::arithmetic::div_mod::lemma_fundamental_div_mod(h + 1, 2);
            assert(1 <= (h + 1) / 2 <= h);
        }
        assert(1 <= cb_w <= w);
        assert(1 <= cb_h <= h);
        assert(cb_sub@.len() == cb_w * cb_h);
        assert(cr_sub@.len() == cr_w * cr_h);
        lemma_valid_plane(cb_sub@.len() as int, cb_w as int, cb_h as int);
        lemma_valid_plane(cr_sub@.len() as int, cr_w as int, cr_h as int);
        crate::quantize::lemma_scaled_entry_range(STD_LUMINANCE_QUANT@[0], config.quality);
        crate::quantize::lemma_scaled_entry_range(STD_CHROMINANCE_QUANT@[0], config.quality);
    }

    // Block extraction, DCT and quantization
    let y_data = process_component(&y_plane, w, h, lum_qt);
    let cb_data = process_component(&cb_sub, cb_w, cb_h, chr_qt);
    let cr_data = process_component(&cr_sub, cr_w, cr_h, chr_qt);
    proof {
        reveal(codes_plane);
        lemma_coded_dc_bounded(y_data.quantized@, y_plane@, w as int, h as int, lum_qt.natural());
        lemma_coded_dc_bounded(cb_data.quantized@, cb_sub@, cb_w as int, cb_h as int, chr_qt.natural());
        lemma_coded_dc_bounded(cr_data.quantized@, cr_sub@, cr_w as int, cr_h as int, chr_qt.natural());
    }
    (y_data, cb_data, cr_data)
}

/// Write the headers of a color file, up to the scan.
#[verifier::rlimit(40)]
fn write_color_headers(
    writer: &mut BitWriter,
    image: &RawImage,
    config: &EncoderConfig,
    lum_qt: &QuantTable,
    chr_qt: &QuantTable,
    t: (&HuffmanTable, &HuffmanTable, &HuffmanTable, &HuffmanTable),
)
    requires
        old(writer).wf(),
        old(writer)@.0 == Seq::<u8>::empty(),
        old(writer)@.1 == Seq::<bool>::empty(),
        image.valid(),
    ensures
        final(writer).wf(),
        final(writer)@ == (
            color_headers(*image, *config, lum_qt.zigzag_values@, chr_qt.zigzag_values@, (*t.0, *t.1, *t.2, *t.3)),
            Seq::<bool>::empty(),
        ),
{
    let _ = marker::write_soi(writer);
    let _ = marker::write_app0_jfif(writer, config);
    let _ = marker::write_dqt(writer, 0, lum_qt);
    let _ = marker::write_dqt(writer, 1, chr_qt);

    let (hy, vy, _, _, _, _) = config.subsampling.factors();
    let frame_components = [
        FrameComponent { id: 1, h_sampling: hy, v_sampling: vy, quant_table_id: 0 },
        FrameComponent { id: 2, h_sampling: 1, v_sampling: 1, quant_table_id: 1 },
        FrameComponent { id: 3, h_sampling: 1, v_sampling: 1, quant_table_id: 1 },
    ];
    let _ = marker::write_sof0(writer, image.width as u16, image.height as u16, &frame_components);

    let _ = marker::write_dht(writer, 0, 0, t.0);
    let _ = marker::write_dht(writer, 1, 0, t.1);
    let _ = marker::write_dht(writer, 0, 1, t.2);
    let _ = marker::write_dht(writer, 1, 1, t.3);
    let _ = marker::write_dri(writer, config.restart_interval);

    let scan_components = [
        ScanComponent { selector: 1, dc_table_id: 0, ac_table_id: 0 },
        ScanComponent { selector: 2, dc_table_id: 1, ac_table_id: 1 },
        ScanComponent { selector: 3, dc_table_id: 1, ac_table_id: 1 },
    ];
    let _ = marker::write_sos(writer, &scan_components);
    proof {
        assert(frame_components@ =~= color_frame(config.subsampling));
        assert(scan_components@ =~= color_scan());
        assert(writer@.0 =~= color_headers(*image, *config, lum_qt.zigzag_values@, chr_qt.zigzag_values@, (*t.0, *t.1, *t.2, *t.3)));
    }
}

/// The facts gathered by `encode_color` make up a color encoding.
proof fn lemma_color_witness(
    image: RawImage, config: EncoderConfig, r: Result<Vec<u8>, Error>,
    d: (Seq<[i16; 64]>, Seq<[i16; 64]>, Seq<[i16; 64]>),
    t: (HuffmanTable, HuffmanTable, HuffmanTable, HuffmanTable),
    lum: Seq<u16>, chr: Seq<u16>, cw: int, p: ScanProgress,
)
    requires
        lum == scaled_table(STD_LUMINANCE_QUANT@, config.quality),
        chr == scaled_table(STD_CHROMINANCE_QUANT@, config.quality),
        cw == ceil_div(image.width as int, chroma_ratios(config.subsampling).0 as int),
        codes_plane(d.0, planes_of(image.data@).0, image.width as int, image.height as int, lum),
        codes_plane(d.1, downsampled(planes_of(image.data@).1, image.width as int, image.height as int,
            chroma_ratios(config.subsampling).0 as nat, chroma_ratios(config.subsampling).1 as nat), cw,
            ceil_div(image.height as int, chroma_ratios(config.subsampling).1 as int), chr),
        codes_plane(d.2, downsampled(planes_of(image.data@).2, image.width as int, image.height as int,
            chroma_ratios(config.subsampling).0 as nat, chroma_ratios(config.subsampling).1 as nat), cw,
            ceil_div(image.height as int, chroma_ratios(config.subsampling).1 as int), chr),
        ({
            let events = interleaved_events(config.subsampling, image.width as int, image.height as int, cw, cw,
                config.restart_interval as int,
                (mcus_wide(config.subsampling, image.width as int) * mcus_high(config.subsampling, image.height as int)) as nat);
            let all = seq![d.0, d.1, d.2];
            &&& built_from(t.0, scan_counts(events, all, 0, false), 15)
            &&& built_from(t.1, scan_counts(events, all, 0, true), 255)
            &&& built_from(t.2, sum_counts(scan_counts(events, all, 1, false), scan_counts(events, all, 2, false)), 15)
            &&& built_from(t.3, sum_counts(scan_counts(events, all, 1, true), scan_counts(events, all, 2, true)), 255)
        }),
        p == scan_fold(
            interleaved_events(config.subsampling, image.width as int, image.height as int, cw, cw, config.restart_interval as int,
                (mcus_wide(config.subsampling, image.width as int) * mcus_high(config.subsampling, image.height as int)) as nat),
            seq![d.0, d.1, d.2],
            seq![t.0, t.1, t.2, t.3],
            (color_headers(image, config, zigzag_order(lum), zigzag_order(chr), t), Seq::empty()),
        ),
        file_result(r, p),
    ensures
        color_encoding(image, config, r),
{
    assert(color_witness(image, config, r, d, t));
}

/// Encode an RGB image: YCbCr conversion, chroma subsampling, two
/// quantization tables, separate luminance and shared chrominance Huffman
/// tables, one interleaved scan.
#[verifier::rlimit(40)]
fn encode_color(image: &RawImage, config: &EncoderConfig) -> (r: Result<Vec<u8>, Error>)
    requires
        image.valid(),
        config.valid(),
        image.color_space == ColorSpace::Rgb,
    ensures
        color_encoding(*image, *config, r),
        r is Ok,
{
    let w = image.width;
    let h = image.height;

    // Quantization tables
    let lum_qt = QuantTable::from_standard(&STD_LUMINANCE_QUANT, config.quality);
    let chr_qt = QuantTable::from_standard(&STD_CHROMINANCE_QUANT, config.quality);
    let ghost lum = scaled_table(STD_LUMINANCE_QUANT@, config.quality);
    let ghost chr = scaled_table(STD_CHROMINANCE_QUANT@, config.quality);
    proof {
        assert(lum_qt.natural() =~= lum);
        assert(chr_qt.natural() =~= chr);
        assert(lum_qt.zigzag_values@ =~= zigzag_order(lum));
        assert(chr_qt.zigzag_values@ =~= zigzag_order(chr));
    }

    // Color conversion, subsampling, block coding
    let (y_data, cb_data, cr_data) = code_color_components(image, config, &lum_qt, &chr_qt);

    // Optimised Huffman tables from the symbols that the scan will code.
    let events = interleaved_event_list(y_data.width, y_data.height, cb_data.width, cr_data.width, config);
    let counts = count_scan(&events, &y_data.quantized, &cb_data.quantized, &cr_data.quantized);

    // Luminance uses its own tables.
    let lum_dc_table = build_table(&counts.y_dc, MAX_DC_CATEGORIES - 1);
    let lum_ac_table = build_table(&counts.y_ac, 255);

    // Chrominance Cb and Cr share a single pair of tables; the counts are
    // added, saturating at u32::MAX.
    let mut chr_dc_counts = [0u32; 16];
    let mut chr_ac_counts = [0u32; 256];
    sum_count_arrays(&counts.cb_dc, &counts.cr_dc, &mut chr_dc_counts);
    sum_count_arrays(&counts.cb_ac, &counts.cr_ac, &mut chr_ac_counts);
    let chr_dc_table = build_table(&chr_dc_counts, MAX_DC_CATEGORIES - 1);
    let chr_ac_table = build_table(&chr_ac_counts, 255);
    let ghost t = (lum_dc_table, lum_ac_table, chr_dc_table, chr_ac_table);

    // Assemble the file
    assert(w as usize * h as usize <= 65535 * 65535) by (nonlinear_arith)
        requires
            w <= 65535,
            h <= 65535,
    ;
    let est_size = (w as usize * h as usize) / 2;
    let mut writer = BitWriter::with_capacity(est_size);
    write_color_headers(&mut writer, image, config, &lum_qt, &chr_qt, (&lum_dc_table, &lum_ac_table, &chr_dc_table, &chr_ac_table));
    let ghost st0 = writer@;

    let scan = encode_interleaved_scan(&y_data, &cb_data, &cr_data, config,
        &lum_dc_table, &lum_ac_table, &chr_dc_table, &chr_ac_table, &mut writer);
    let ghost d = (y_data.quantized@, cb_data.quantized@, cr_data.quantized@);
    let ghost cw = cb_data.width as int;
    let ghost p = scan_fold(
        interleaved_events(config.subsampling, w as int, h as int, cw, cw, config.restart_interval as int,
            (mcus_wide(config.subsampling, w as int) * mcus_high(config.subsampling, h as int)) as nat),
        seq![d.0, d.1, d.2],
        seq![t.0, t.1, t.2, t.3],
        st0,
    );
    proof {
        let all = seq![d.0, d.1, d.2];
        let toks = scan_tokens(events@, all);
        let tables = seq![t.0, t.1, t.2, t.3];
        lemma_scan_tokens_len(events@, all);
        lemma_scan_dc_symbols(events@, all, 0);
        lemma_scan_dc_symbols(events@, all, 1);
        lemma_scan_dc_symbols(events@, all, 2);
        lemma_counted_tokens_coded(toks.0[0], t.0, t.1, counts.y_dc@, counts.y_ac@);
        lemma_counted_tokens_coded(toks.0[1], t.2, t.3, chr_dc_counts@, chr_ac_counts@);
        lemma_counted_tokens_coded(toks.0[2], t.2, t.3, chr_dc_counts@, chr_ac_counts@);
        lemma_scan_clean(events@, all, tables, st0);
    }
    if let Err(e) = scan {
        let r = Err(e);
        proof {
            lemma_color_witness(*image, *config, r, d, t, lum, chr, cw, p);
        }
        return r;
    }
    let _ = writer.flush_with_ones();
    let _ = marker::write_eoi(&mut writer);
    let r = Ok(writer.into_bytes());
    proof {
        lemma_color_witness(*image, *config, r, d, t, lum, chr, cw, p);
    }
    r
}

/// `r` is the error that `RawImage::validate` reports for an invalid image.
pub open spec fn image_error(image: RawImage, r: Result<Vec<u8>, Error>) -> bool {
    if !image.dimensions_valid() {
        r == Err::<Vec<u8>, Error>(Error::InvalidDimensions { width: image.width, height: image.height })
    } else {
        r == Err::<Vec<u8>, Error>(
            Error::BufferSizeMismatch { expected: image.expected_len() as usize, actual: image.data@.len() as usize },
        )
    }
}

/// Encode a raw image as a baseline JPEG (JFIF) file.
///
/// The image is validated first (`InvalidDimensions`, `BufferSizeMismatch`),
/// then the configuration (`InvalidQuality`). A valid image with a valid
/// configuration is always encoded: the Huffman tables are built from the
/// symbols that the scan codes, so every one of them has a code. The file
/// is as `color_encoding` (RGB) or `grayscale_encoding` describes.
pub fn encode(image: &RawImage, config: &EncoderConfig) -> (r: Result<Vec<u8>, Error>)
    ensures
        !image.valid() ==> image_error(*image, r),
        image.valid() && !config.valid() ==> r == Err::<Vec<u8>, Error>(Error::InvalidQuality(config.quality)),
        image.valid() && config.valid() ==> r is Ok,
        image.valid() && config.valid() && image.color_space == ColorSpace::Rgb ==> color_encoding(*image, *config, r),
        image.valid() && config.valid() && image.color_space == ColorSpace::Grayscale ==> grayscale_encoding(*image, *config, r),
{
    if let Err(e) = image.validate() {
        return Err(e);
    }
    if let Err(e) = config.validate() {
        return Err(e);
    }
    match image.color_space {
        ColorSpace::Rgb => encode_color(image, config),
        ColorSpace::Grayscale => encode_grayscale(image, config),
    }
}

/// Every token of `toks` has a code of 1..=16 bits in its table.
pub open spec fn tokens_coded(toks: Seq<Token>, dc: HuffmanTable, ac: HuffmanTable) -> bool {
    forall|j: int| 0 <= j < toks.len() ==> #[trigger] token_fault(toks[j], dc, ac) is None
}

proof fn lemma_coded_tokens_no_fault(toks: Seq<Token>, dc: HuffmanTable, ac: HuffmanTable)
    requires
        tokens_coded(toks, dc, ac),
    ensures
        tokens_fault(toks, dc, ac) is None,
    decreases toks.len(),
{
    if toks.len() > 0 {
        let front = toks.drop_last();
        assert forall|j: int| 0 <= j < front.len() implies #[trigger] token_fault(front[j], dc, ac) is None by {
            assert(front[j] == toks[j]);
        }
        lemma_coded_tokens_no_fault(front, dc, ac);
        assert(token_fault(toks[toks.len() - 1], dc, ac) is None);
    }
}

/// A token of a sequence is counted at least once.
proof fn lemma_token_counted(toks: Seq<Token>, j: int)
    requires
        0 <= j < toks.len(),
    ensures
        count_symbol(toks, toks[j].ac, toks[j].symbol) >= 1,
    decreases toks.len(),
{
    if j < toks.len() - 1 {
        lemma_token_counted(toks.drop_last(), j);
        assert(toks.drop_last()[j] == toks[j]);
    }
}

proof fn lemma_ceil_div_one(n: int)
    ensures
        ceil_div(n, 1) == n,
{
}

/// The tokens of `toks` are coded by tables built from counts that include
/// each of their symbols.
proof fn lemma_counted_tokens_coded(toks: Seq<Token>, dc: HuffmanTable, ac: HuffmanTable, fdc: Seq<u32>, fac: Seq<u32>)
    requires
        fdc.len() == 16,
        fac.len() == 256,
        built_from(dc, fdc, 15),
        built_from(ac, fac, 255),
        forall|j: int| 0 <= j < toks.len() && !(#[trigger] toks[j]).ac ==> toks[j].symbol <= 15,
        forall|s: int| 0 <= s < 16 && #[trigger] count_symbol(toks, false, s as u8) > 0 ==> fdc[s] > 0,
        forall|s: int| 0 <= s < 256 && #[trigger] count_symbol(toks, true, s as u8) > 0 ==> fac[s] > 0,
    ensures
        tokens_coded(toks, dc, ac),
{
    reveal(built_from);
    assert forall|j: int| 0 <= j < toks.len() implies #[trigger] token_fault(toks[j], dc, ac) is None by {
        let tk = toks[j];
        lemma_token_counted(toks, j);
        let s = tk.symbol as int;
        assert(s as u8 == tk.symbol);
        if tk.ac {
            assert(count_symbol(toks, true, s as u8) > 0);
            assert(occurs(fac, 256, tk.symbol));
        } else {
            assert(count_symbol(toks, false, s as u8) > 0);
            assert(occurs(fdc, 16, tk.symbol));
        }
    }
}

/// The tokens of both parts of a coded stream are coded.
proof fn lemma_coded_parts(a: Seq<Token>, b: Seq<Token>, dc: HuffmanTable, ac: HuffmanTable)
    requires
        tokens_coded(a + b, dc, ac),
    ensures
        tokens_coded(a, dc, ac),
        tokens_coded(b, dc, ac),
{
    assert forall|j: int| 0 <= j < a.len() implies #[trigger] token_fault(a[j], dc, ac) is None by {
        assert((a + b)[j] == a[j]);
    }
    assert forall|j: int| 0 <= j < b.len() implies #[trigger] token_fault(b[j], dc, ac) is None by {
        assert((a + b)[a.len() + j] == b[j]);
    }
}

/// A scan meets no Huffman coding fault when the token stream of each of
/// its components is coded by that component's tables; its DC predictions
/// are those of `scan_tokens`.
proof fn lemma_scan_clean(events: Seq<ScanEvent>, data: Seq<Seq<[i16; 64]>>, tables: Seq<HuffmanTable>, st: WriterState)
    requires
        data.len() == 3,
        components_ok(events),
        tokens_coded(scan_tokens(events, data).0[0], tables[0], tables[1]),
        tokens_coded(scan_tokens(events, data).0[1], tables[2], tables[3]),
        tokens_coded(scan_tokens(events, data).0[2], tables[2], tables[3]),
    ensures
        scan_fold(events, data, tables, st).0 is None,
        scan_fold(events, data, tables, st).2 == scan_tokens(events, data).1,
    decreases events.len(),
{
    if events.len() > 0 {
        let pre = events.drop_last();
        let p = scan_tokens(pre, data);
        let now = scan_tokens(events, data);
        lemma_scan_tokens_len(pre, data);
        assert(components_ok(pre)) by {
            assert forall|j: int| 0 <= j < pre.len() implies match #[trigger] pre[j] {
                ScanEvent::Block(c, _) => c < 3,
                ScanEvent::Restart => true,
            } by {
                assert(pre[j] == events[j]);
            }
        }
        let last = events[events.len() - 1];
        assert(last == events.last());
        match last {
            ScanEvent::Restart => {
                assert(now.0 == p.0);
                lemma_scan_clean(pre, data, tables, st);
            },
            ScanEvent::Block(c, idx) => {
                assert(c < 3);
                if idx >= data[c as int].len() {
                    lemma_scan_clean(pre, data, tables, st);
                } else {
                    let blk = data[c as int][idx as int]@;
                    let bt = block_tokens(blk, p.1[c as int]);
                    assert(now.0[c as int] == p.0[c as int] + bt);
                    let dct = dc_table_of(tables, c as int);
                    let act = ac_table_of(tables, c as int);
                    lemma_coded_parts(p.0[c as int], bt, dct, act);
                    assert forall|k: int| 0 <= k < 3 && k != c implies now.0[k] == p.0[k] by {}
                    if c == 0 {
                        assert(now.0[1] == p.0[1] && now.0[2] == p.0[2]);
                    } else if c == 1 {
                        assert(now.0[0] == p.0[0] && now.0[2] == p.0[2]);
                    } else {
                        assert(now.0[0] == p.0[0] && now.0[1] == p.0[1]);
                    }
                    lemma_scan_clean(pre, data, tables, st);
                    lemma_coded_tokens_no_fault(bt, dct, act);
                    let f = scan_fold(pre, data, tables, st);
                    assert(f.2 == p.1);
                    assert(scan_fold(events, data, tables, st) == scan_step(f, last, data, tables));
                    assert(scan_step(f, last, data, tables).2 =~= now.1);
                }
            },
        }
    }
}

/// Block events of the luminance component only.
pub open spec fn luma_only(events: Seq<ScanEvent>) -> bool {
    forall|j: int|
        #![trigger events[j]]
        0 <= j < events.len() ==> match events[j] {
            ScanEvent::Block(c, _) => c == 0,
            ScanEvent::Restart => true,
        }
}

/// Events of the luminance component only code no chroma tokens.
proof fn lemma_luma_only_streams(events: Seq<ScanEvent>, data: Seq<Seq<[i16; 64]>>)
    requires
        luma_only(events),
    ensures
        scan_tokens(events, data).0[1].len() == 0,
        scan_tokens(events, data).0[2].len() == 0,
    decreases events.len(),
{
    if events.len() > 0 {
        let pre = events.drop_last();
        assert(luma_only(pre)) by {
            assert forall|j: int| 0 <= j < pre.len() implies match #[trigger] pre[j] {
                ScanEvent::Block(c, _) => c == 0,
                ScanEvent::Restart => true,
            } by {
                assert(pre[j] == events[j]);
            }
        }
        lemma_luma_only_streams(pre, data);
        lemma_scan_tokens_len(pre, data);
        let last = events[events.len() - 1];
        assert(last == events.last());
    }
}

/// `a` begins with `b`.
pub open spec fn starts_with(a: Seq<u8>, b: Seq<u8>) -> bool {
    b.len() <= a.len() && a.subrange(0, b.len() as int) == b
}

proof fn lemma_starts_with_append(a: Seq<u8>, b: Seq<u8>, c: Seq<u8>)
    requires
        starts_with(a, b),
    ensures
        starts_with(a + c, b),
{
    assert((a + c).subrange(0, b.len() as int) =~= a.subrange(0, b.len() as int));
}

/// A scan only appends to the bytes it starts from.
proof fn lemma_fold_extends(events: Seq<ScanEvent>, data: Seq<Seq<[i16; 64]>>, tables: Seq<HuffmanTable>, st: WriterState)
    ensures
        starts_with(scan_fold(events, data, tables, st).1.0, st.0),
    decreases events.len(),
{
    if events.len() == 0 {
        assert(st.0.subrange(0, st.0.len() as int) =~= st.0);
    } else {
        lemma_fold_extends(events.drop_last(), data, tables, st);
        let p = scan_fold(events.drop_last(), data, tables, st);
        lemma_starts_with_append(p.1.0, st.0, stuff(pack(p.1.1 + ones((8 - p.1.1.len()) as nat))));
        let f = flush_state(p.1).0;
        lemma_starts_with_append(f, st.0, rst_bytes((p.3 % 8) as u16));
        match events.last() {
            ScanEvent::Block(c, idx) => {
                if p.0 is None && idx < data[c as int].len() {
                    let blk = data[c as int][idx as int]@;
                    let toks = block_tokens(blk, p.2[c as int]);
                    let bits = tokens_bits(toks, dc_table_of(tables, c as int), ac_table_of(tables, c as int));
                    lemma_starts_with_append(p.1.0, st.0, stuff(pack(p.1.1 + bits)));
                }
            },
            ScanEvent::Restart => {},
        }
    }
}

/// The end of a file: its pending bits padded, then EOI.
proof fn lemma_finish_frames(p: ScanProgress, head: Seq<u8>)
    requires
        starts_with(p.1.0, head),
    ensures
        starts_with(finish(p), head),
        finish(p).len() >= 2,
        finish(p).subrange(finish(p).len() - 2, finish(p).len() as int) == be16(MARKER_EOI),
{
    let f = flush_state(p.1).0;
    lemma_starts_with_append(p.1.0, head, stuff(pack(p.1.1 + ones((8 - p.1.1.len()) as nat))));
    lemma_starts_with_append(f, head, be16(MARKER_EOI));
    assert(finish(p).subrange(finish(p).len() - 2, finish(p).len() as int) =~= be16(MARKER_EOI));
}

/// A file assembled from headers `hd` and a scan begins with what `hd`
/// begins with and ends with EOI.
proof fn lemma_scan_file_framing(
    events: Seq<ScanEvent>,
    all: Seq<Seq<[i16; 64]>>,
    tables: Seq<HuffmanTable>,
    hd: Seq<u8>,
    head: Seq<u8>,
    r: Result<Vec<u8>, Error>,
)
    requires
        starts_with(hd, head),
        file_result(r, scan_fold(events, all, tables, (hd, Seq::<bool>::empty()))),
    ensures
        r matches Ok(bytes) ==> {
            &&& starts_with(bytes@, head)
            &&& bytes@.len() >= 2
            &&& bytes@.subrange(bytes@.len() - 2, bytes@.len() as int) == be16(MARKER_EOI)
        },
{
    let st = (hd, Seq::<bool>::empty());
    lemma_fold_extends(events, all, tables, st);
    let p = scan_fold(events, all, tables, st);
    assert(starts_with(p.1.0, head)) by {
        assert(p.1.0.subrange(0, head.len() as int) =~= p.1.0.subrange(0, hd.len() as int).subrange(0, head.len() as int));
    }
    lemma_finish_frames(p, head);
}

proof fn lemma_gray_headers_start(image: RawImage, config: EncoderConfig, qt: Seq<u16>, dc: HuffmanTable, ac: HuffmanTable)
    ensures
        starts_with(gray_headers(image, config, qt, dc, ac), be16(MARKER_SOI) + app0_bytes(config)),
{
    let head = be16(MARKER_SOI) + app0_bytes(config);
    let hd = gray_headers(image, config, qt, dc, ac);
    assert(hd.subrange(0, head.len() as int) =~= head);
}

proof fn lemma_color_headers_start(
    image: RawImage, config: EncoderConfig, lum: Seq<u16>, chr: Seq<u16>,
    t: (HuffmanTable, HuffmanTable, HuffmanTable, HuffmanTable),
)
    ensures
        starts_with(color_headers(image, config, lum, chr, t), be16(MARKER_SOI) + app0_bytes(config)),
{
    let head = be16(MARKER_SOI) + app0_bytes(config);
    let hd = color_headers(image, config, lum, chr, t);
    assert(hd.subrange(0, head.len() as int) =~= head);
}

proof fn lemma_gray_framing(image: RawImage, config: EncoderConfig, r: Result<Vec<u8>, Error>)
    requires
        grayscale_encoding(image, config, r),
    ensures
        r matches Ok(bytes) ==> {
            &&& starts_with(bytes@, be16(MARKER_SOI) + app0_bytes(config))
            &&& bytes@.len() >= 2
            &&& bytes@.subrange(bytes@.len() - 2, bytes@.len() as int) == be16(MARKER_EOI)
        },
{
    let (data, dc, ac) = choose|data: Seq<[i16; 64]>, dc: HuffmanTable, ac: HuffmanTable|
        #[trigger] grayscale_witness(image, config, r, data, dc, ac);
    let lum = scaled_table(STD_LUMINANCE_QUANT@, config.quality);
    lemma_gray_headers_start(image, config, zigzag_order(lum), dc, ac);
    lemma_scan_file_framing(
        grayscale_events(config.restart_interval as int, data.len()),
        seq![data, data, data],
        seq![dc, ac, dc, ac],
        gray_headers(image, config, zigzag_order(lum), dc, ac),
        be16(MARKER_SOI) + app0_bytes(config),
        r,
    );
}

proof fn lemma_color_framing(image: RawImage, config: EncoderConfig, r: Result<Vec<u8>, Error>)
    requires
        color_encoding(image, config, r),
    ensures
        r matches Ok(bytes) ==> {
            &&& starts_with(bytes@, be16(MARKER_SOI) + app0_bytes(config))
            &&& bytes@.len() >= 2
            &&& bytes@.subrange(bytes@.len() - 2, bytes@.len() as int) == be16(MARKER_EOI)
        },
{
    let (d, t) = choose|d: (Seq<[i16; 64]>, Seq<[i16; 64]>, Seq<[i16; 64]>), t: (HuffmanTable, HuffmanTable, HuffmanTable, HuffmanTable)|
        #[trigger] color_witness(image, config, r, d, t);
    let w = image.width as int;
    let h = image.height as int;
    let cw = ceil_div(w, chroma_ratios(config.subsampling).0 as int);
    let lum = scaled_table(STD_LUMINANCE_QUANT@, config.quality);
    let chr = scaled_table(STD_CHROMINANCE_QUANT@, config.quality);
    lemma_color_headers_start(image, config, zigzag_order(lum), zigzag_order(chr), t);
    lemma_scan_file_framing(
        interleaved_events(config.subsampling, w, h, cw, cw, config.restart_interval as int,
            (mcus_wide(config.subsampling, w) * mcus_high(config.subsampling, h)) as nat),
        seq![d.0, d.1, d.2],
        seq![t.0, t.1, t.2, t.3],
        color_headers(image, config, zigzag_order(lum), zigzag_order(chr), t),
        be16(MARKER_SOI) + app0_bytes(config),
        r,
    );
}

/// Every file that `encode` returns begins with the SOI marker and the JFIF
/// APP0 segment of the configuration and ends with the EOI marker.
pub proof fn lemma_encoded_file_framing(image: RawImage, config: EncoderConfig, r: Result<Vec<u8>, Error>)
    requires
        image.valid(),
        config.valid(),
        image.color_space == ColorSpace::Rgb ==> color_encoding(image, config, r),
        image.color_space == ColorSpace::Grayscale ==> grayscale_encoding(image, config, r),
    ensures
        r matches Ok(bytes) ==> {
            &&& starts_with(bytes@, be16(MARKER_SOI) + app0_bytes(config))
            &&& bytes@.len() >= 2
            &&& bytes@.subrange(bytes@.len() - 2, bytes@.len() as int) == be16(MARKER_EOI)
        },
{
    if image.color_space == ColorSpace::Grayscale {
        lemma_gray_framing(image, config, r);
    } else {
        lemma_color_framing(image, config, r);
    }
}

/// Every grayscale file that `encode` returns is laid out as T.81 Annex B
/// orders it: SOI, APP0, DQT, SOF0, the DC and AC DHT segments of the
/// tables built from the scan's symbol counts, DRI, SOS, then the scan and
/// EOI. It begins with `gray_headers` for those tables and ends with EOI.
pub proof fn lemma_grayscale_file_layout(image: RawImage, config: EncoderConfig, r: Result<Vec<u8>, Error>)
    requires
        grayscale_encoding(image, config, r),
    ensures
        r matches Ok(bytes) ==> exists|data: Seq<[i16; 64]>, dc: HuffmanTable, ac: HuffmanTable|
            #[trigger] grayscale_witness(image, config, r, data, dc, ac) && starts_with(
                bytes@,
                gray_headers(image, config, zigzag_order(scaled_table(STD_LUMINANCE_QUANT@, config.quality)), dc, ac),
            ) && bytes@.len() >= 2 && bytes@.subrange(bytes@.len() - 2, bytes@.len() as int) == be16(MARKER_EOI),
{
    let (data, dc, ac) = choose|data: Seq<[i16; 64]>, dc: HuffmanTable, ac: HuffmanTable|
        #[trigger] grayscale_witness(image, config, r, data, dc, ac);
    let lum = scaled_table(STD_LUMINANCE_QUANT@, config.quality);
    let hd = gray_headers(image, config, zigzag_order(lum), dc, ac);
    assert(hd.subrange(0, hd.len() as int) =~= hd);
    lemma_scan_file_framing(
        grayscale_events(config.restart_interval as int, data.len()),
        seq![data, data, data],
        seq![dc, ac, dc, ac],
        hd,
        hd,
        r,
    );
}

/// Every color file that `encode` returns is laid out as T.81 Annex B
/// orders it: SOI, APP0, the luminance and chrominance DQT segments, SOF0,
/// the four DHT segments of the tables built from the scan's symbol
/// counts, DRI, SOS, then the scan and EOI. It begins with `color_headers`
/// for those tables and ends with EOI.
pub proof fn lemma_color_file_layout(image: RawImage, config: EncoderConfig, r: Result<Vec<u8>, Error>)
    requires
        color_encoding(image, config, r),
    ensures
        r matches Ok(bytes) ==> exists|
            d: (Seq<[i16; 64]>, Seq<[i16; 64]>, Seq<[i16; 64]>),
            t: (HuffmanTable, HuffmanTable, HuffmanTable, HuffmanTable),
        |
            #[trigger] color_witness(image, config, r, d, t) && starts_with(
                bytes@,
                color_headers(
                    image,
                    config,
                    zigzag_order(scaled_table(STD_LUMINANCE_QUANT@, config.quality)),
                    zigzag_order(scaled_table(STD_CHROMINANCE_QUANT@, config.quality)),
                    t,
                ),
            ) && bytes@.len() >= 2 && bytes@.subrange(bytes@.len() - 2, bytes@.len() as int) == be16(MARKER_EOI),
{
    let (d, t) = choose|d: (Seq<[i16; 64]>, Seq<[i16; 64]>, Seq<[i16; 64]>), t: (HuffmanTable, HuffmanTable, HuffmanTable, HuffmanTable)|
        #[trigger] color_witness(image, config, r, d, t);
    let w = image.width as int;
    let h = image.height as int;
    let cw = ceil_div(w, chroma_ratios(config.subsampling).0 as int);
    let lum = scaled_table(STD_LUMINANCE_QUANT@, config.quality);
    let chr = scaled_table(STD_CHROMINANCE_QUANT@, config.quality);
    let hd = color_headers(image, config, zigzag_order(lum), zigzag_order(chr), t);
    assert(hd.subrange(0, hd.len() as int) =~= hd);
    lemma_scan_file_framing(
        interleaved_events(config.subsampling, w, h, cw, cw, config.restart_interval as int,
            (mcus_wide(config.subsampling, w) * mcus_high(config.subsampling, h)) as nat),
        seq![d.0, d.1, d.2],
        seq![t.0, t.1, t.2, t.3],
        hd,
        hd,
        r,
    );
}

/// Tables built from the frequencies that `collect_frequencies` counts for a
/// sequence of blocks code every token of those blocks, the first DC being
/// predicted by 0: `encode_blocks` with them from prediction 0 meets no
/// fault, so it succeeds, writes the bits of the blocks' tokens and leaves
/// the last block's DC value as the prediction.
pub proof fn lemma_collected_tables_code_blocks(
    blocks: Seq<[i16; 64]>,
    dcf: DcFrequencies,
    acf: AcFrequencies,
    dc: HuffmanTable,
    ac: HuffmanTable,
)
    requires
        counts_match(dcf, acf, stream_tokens(blocks, 0)),
        built_from(dc, dcf.counts@, 15),
        built_from(ac, acf.counts@, 255),
    ensures
        tokens_fault(stream_tokens(blocks, 0), dc, ac) is None,
        forall|r: Result<(), Error>, st: WriterState, fin: WriterState|
            #[trigger] writes_tokens(r, st, fin, stream_tokens(blocks, 0), dc, ac) ==> r is Ok && fin == push_bits(
                st,
                tokens_bits(stream_tokens(blocks, 0), dc, ac),
            ),
{
    let toks = stream_tokens(blocks, 0);
    assert forall|j: int| 0 <= j < toks.len() && !(#[trigger] toks[j]).ac implies toks[j].symbol <= 15 by {
        lemma_token_counted(toks, j);
        if toks[j].symbol >= 16 {
            assert(count_symbol(toks, false, toks[j].symbol) == 0);
        }
    }
    assert forall|s: int| 0 <= s < 16 && #[trigger] count_symbol(toks, false, s as u8) > 0 implies dcf.counts@[s] > 0 by {
        assert(dcf.counts@[(s as u8) as int] == count_symbol(toks, false, s as u8));
    }
    assert forall|s: int| 0 <= s < 256 && #[trigger] count_symbol(toks, true, s as u8) > 0 implies acf.counts@[s] > 0 by {
        assert(count_symbol(toks, true, s as u8) == acf.counts@[(s as u8) as int]);
    }
    lemma_counted_tokens_coded(toks, dc, ac, dcf.counts@, acf.counts@);
    lemma_coded_tokens_no_fault(toks, dc, ac);
}

/// `seg` occurs as a contiguous run of bytes in `s`.
pub open spec fn has_segment(s: Seq<u8>, seg: Seq<u8>) -> bool {
    exists|i: int| 0 <= i && i + seg.len() <= s.len() && #[trigger] s.subrange(i, i + seg.len()) == seg
}

/// `file` begins with headers `h` and then an SOS segment for `n`
/// components, the j-th being frame component j + 1, whose DC and AC table
/// selectors name DHT segments of `h` that hold the BITS and HUFFVAL of the
/// tables that code component j in the scan (`dc_table_of`, `ac_table_of`).
pub open spec fn scan_selects(file: Seq<u8>, tables: Seq<HuffmanTable>, n: int) -> bool {
    exists|h: Seq<u8>, sc: Seq<ScanComponent>|
        #[trigger] starts_with(file, h + sos_bytes(sc)) && sc.len() == n && forall|c: int|
            0 <= c < n ==> {
                &&& (#[trigger] sc[c]).selector == c + 1
                &&& has_segment(
                    h,
                    dht_bytes(0, sc[c].dc_table_id, dc_table_of(tables, c).bits@, dc_table_of(tables, c).values@),
                )
                &&& has_segment(
                    h,
                    dht_bytes(1, sc[c].ac_table_id, ac_table_of(tables, c).bits@, ac_table_of(tables, c).values@),
                )
            }
}

proof fn lemma_segment_at(a: Seq<u8>, seg: Seq<u8>, b: Seq<u8>)
    ensures
        has_segment(a + seg + b, seg),
{
    let i = a.len() as int;
    assert((a + seg + b).subrange(i, i + seg.len()) =~= seg);
}

/// Each of the two segments between `a` and `e` occurs in `a + s0 + s1 + e`.
proof fn lemma_two_segments(a: Seq<u8>, s0: Seq<u8>, s1: Seq<u8>, e: Seq<u8>)
    ensures
        has_segment(a + s0 + s1 + e, s0),
        has_segment(a + s0 + s1 + e, s1),
{
    assert(a + s0 + s1 + e =~= a + s0 + (s1 + e));
    lemma_segment_at(a, s0, s1 + e);
    lemma_segment_at(a + s0, s1, e);
}

/// Each of the four segments between `a` and `e` occurs in
/// `a + s0 + s1 + s2 + s3 + e`.
proof fn lemma_four_segments(a: Seq<u8>, s0: Seq<u8>, s1: Seq<u8>, s2: Seq<u8>, s3: Seq<u8>, e: Seq<u8>)
    ensures
        has_segment(a + s0 + s1 + s2 + s3 + e, s0),
        has_segment(a + s0 + s1 + s2 + s3 + e, s1),
        has_segment(a + s0 + s1 + s2 + s3 + e, s2),
        has_segment(a + s0 + s1 + s2 + s3 + e, s3),
{
    let h = a + s0 + s1 + s2 + s3 + e;
    assert(h =~= a + s0 + s1 + (s2 + s3 + e));
    lemma_two_segments(a, s0, s1, s2 + s3 + e);
    assert(h =~= (a + s0 + s1) + s2 + s3 + e);
    lemma_two_segments(a + s0 + s1, s2, s3, e);
}

/// The grayscale headers: the segments up to the scan header, then an SOS
/// segment for frame component 1 whose selectors name the DHT segments of
/// `dc` and `ac`.
proof fn lemma_gray_headers_select(image: RawImage, config: EncoderConfig, qt: Seq<u16>, dc: HuffmanTable, ac: HuffmanTable)
    ensures
        exists|h: Seq<u8>, sc: Seq<ScanComponent>|
            gray_headers(image, config, qt, dc, ac) == h + sos_bytes(sc) && sc.len() == 1 && sc[0].selector == 1
                && has_segment(h, dht_bytes(0, sc[0].dc_table_id, dc.bits@, dc.values@))
                && has_segment(h, dht_bytes(1, sc[0].ac_table_id, ac.bits@, ac.values@)),
{
    let a0 = be16(MARKER_SOI) + app0_bytes(config) + dqt_bytes(0, qt) + sof0_bytes(
        image.width as u16,
        image.height as u16,
        seq![FrameComponent { id: 1, h_sampling: 1, v_sampling: 1, quant_table_id: 0 }],
    );
    let sdc = dht_bytes(0, 0, dc.bits@, dc.values@);
    let sac = dht_bytes(1, 0, ac.bits@, ac.values@);
    let dri = dri_bytes(config.restart_interval);
    let sc = seq![ScanComponent { selector: 1, dc_table_id: 0, ac_table_id: 0 }];
    let h = a0 + sdc + sac + dri;
    assert(gray_headers(image, config, qt, dc, ac) == h + sos_bytes(sc));
    lemma_two_segments(a0, sdc, sac, dri);
    assert(sc[0].selector == 1 && sc[0].dc_table_id == 0 && sc[0].ac_table_id == 0);
}

/// The color headers: the segments up to the scan header, then an SOS
/// segment for frame components 1, 2, 3 whose selectors name the DHT
/// segments of the luminance tables (Y) and chrominance tables (Cb, Cr).
proof fn lemma_color_headers_select(
    image: RawImage, config: EncoderConfig, lum: Seq<u16>, chr: Seq<u16>,
    t: (HuffmanTable, HuffmanTable, HuffmanTable, HuffmanTable),
)
    ensures
        exists|h: Seq<u8>, sc: Seq<ScanComponent>|
            color_headers(image, config, lum, chr, t) == h + sos_bytes(sc) && sc.len() == 3
                && sc[0].selector == 1 && sc[1].selector == 2 && sc[2].selector == 3
                && has_segment(h, dht_bytes(0, sc[0].dc_table_id, t.0.bits@, t.0.values@))
                && has_segment(h, dht_bytes(1, sc[0].ac_table_id, t.1.bits@, t.1.values@))
                && has_segment(h, dht_bytes(0, sc[1].dc_table_id, t.2.bits@, t.2.values@))
                && has_segment(h, dht_bytes(1, sc[1].ac_table_id, t.3.bits@, t.3.values@))
                && has_segment(h, dht_bytes(0, sc[2].dc_table_id, t.2.bits@, t.2.values@))
                && has_segment(h, dht_bytes(1, sc[2].ac_table_id, t.3.bits@, t.3.values@)),
{
    let a0 = be16(MARKER_SOI) + app0_bytes(config) + dqt_bytes(0, lum) + dqt_bytes(1, chr)
        + sof0_bytes(image.width as u16, image.height as u16, color_frame(config.subsampling));
    let s0 = dht_bytes(0, 0, t.0.bits@, t.0.values@);
    let s1 = dht_bytes(1, 0, t.1.bits@, t.1.values@);
    let s2 = dht_bytes(0, 1, t.2.bits@, t.2.values@);
    let s3 = dht_bytes(1, 1, t.3.bits@, t.3.values@);
    let dri = dri_bytes(config.restart_interval);
    let sc = color_scan();
    let h = a0 + s0 + s1 + s2 + s3 + dri;
    assert(color_headers(image, config, lum, chr, t) == h + sos_bytes(sc));
    lemma_four_segments(a0, s0, s1, s2, s3, dri);
}

/// In every grayscale file that `encode` returns, the scan header selects,
/// for its one component (frame component 1), the DC and AC tables whose
/// DHT segments hold the tables that the scan codes it with.
#[verifier::spinoff_prover]
#[verifier::rlimit(60)]
pub proof fn lemma_grayscale_scan_selects_its_tables(image: RawImage, config: EncoderConfig, r: Result<Vec<u8>, Error>)
    requires
        grayscale_encoding(image, config, r),
    ensures
        r matches Ok(bytes) ==> exists|data: Seq<[i16; 64]>, dc: HuffmanTable, ac: HuffmanTable|
            #[trigger] grayscale_witness(image, config, r, data, dc, ac) && scan_selects(bytes@, seq![dc, ac, dc, ac], 1),
{
    let (data, dc, ac) = choose|data: Seq<[i16; 64]>, dc: HuffmanTable, ac: HuffmanTable|
        #[trigger] grayscale_witness(image, config, r, data, dc, ac);
    let lum = scaled_table(STD_LUMINANCE_QUANT@, config.quality);
    let hd = gray_headers(image, config, zigzag_order(lum), dc, ac);
    assert(hd.subrange(0, hd.len() as int) =~= hd);
    lemma_scan_file_framing(
        grayscale_events(config.restart_interval as int, data.len()),
        seq![data, data, data],
        seq![dc, ac, dc, ac],
        hd,
        hd,
        r,
    );
    if let Ok(bytes) = r {
        lemma_gray_headers_select(image, config, zigzag_order(lum), dc, ac);
        let (h, sc) = choose|h: Seq<u8>, sc: Seq<ScanComponent>|
            hd == h + sos_bytes(sc) && sc.len() == 1 && sc[0].selector == 1
                && has_segment(h, dht_bytes(0, sc[0].dc_table_id, dc.bits@, dc.values@))
                && has_segment(h, dht_bytes(1, sc[0].ac_table_id, ac.bits@, ac.values@));
        let tables = seq![dc, ac, dc, ac];
        assert(dc_table_of(tables, 0) == dc && ac_table_of(tables, 0) == ac);
        assert(starts_with(bytes@, h + sos_bytes(sc)));
        assert(scan_selects(bytes@, tables, 1));
    }
}

/// In every color file that `encode` returns, the scan header selects, for
/// each of its three components (frame components 1, 2, 3: Y, Cb, Cr), the
/// DC and AC tables whose DHT segments hold the tables that the scan codes
/// that component with: the luminance tables for Y, the chrominance tables
/// for Cb and Cr.
#[verifier::spinoff_prover]
#[verifier::rlimit(60)]
pub proof fn lemma_color_scan_selects_its_tables(image: RawImage, config: EncoderConfig, r: Result<Vec<u8>, Error>)
    requires
        color_encoding(image, config, r),
    ensures
        r matches Ok(bytes) ==> exists|
            d: (Seq<[i16; 64]>, Seq<[i16; 64]>, Seq<[i16; 64]>),
            t: (HuffmanTable, HuffmanTable, HuffmanTable, HuffmanTable),
        |
            #[trigger] color_witness(image, config, r, d, t) && scan_selects(bytes@, seq![t.0, t.1, t.2, t.3], 3),
{
    let (d, t) = choose|d: (Seq<[i16; 64]>, Seq<[i16; 64]>, Seq<[i16; 64]>), t: (HuffmanTable, HuffmanTable, HuffmanTable, HuffmanTable)|
        #[trigger] color_witness(image, config, r, d, t);
    let w = image.width as int;
    let hh = image.height as int;
    let cw = ceil_div(w, chroma_ratios(config.subsampling).0 as int);
    let lum = scaled_table(STD_LUMINANCE_QUANT@, config.quality);
    let chr = scaled_table(STD_CHROMINANCE_QUANT@, config.quality);
    let hd = color_headers(image, config, zigzag_order(lum), zigzag_order(chr), t);
    assert(hd.subrange(0, hd.len() as int) =~= hd);
    lemma_scan_file_framing(
        interleaved_events(config.subsampling, w, hh, cw, cw, config.restart_interval as int,
            (mcus_wide(config.subsampling, w) * mcus_high(config.subsampling, hh)) as nat),
        seq![d.0, d.1, d.2],
        seq![t.0, t.1, t.2, t.3],
        hd,
        hd,
        r,
    );
    if let Ok(bytes) = r {
        lemma_color_headers_select(image, config, zigzag_order(lum), zigzag_order(chr), t);
        let (h, sc) = choose|h: Seq<u8>, sc: Seq<ScanComponent>|
            hd == h + sos_bytes(sc) && sc.len() == 3
                && sc[0].selector == 1 && sc[1].selector == 2 && sc[2].selector == 3
                && has_segment(h, dht_bytes(0, sc[0].dc_table_id, t.0.bits@, t.0.values@))
                && has_segment(h, dht_bytes(1, sc[0].ac_table_id, t.1.bits@, t.1.values@))
                && has_segment(h, dht_bytes(0, sc[1].dc_table_id, t.2.bits@, t.2.values@))
                && has_segment(h, dht_bytes(1, sc[1].ac_table_id, t.3.bits@, t.3.values@))
                && has_segment(h, dht_bytes(0, sc[2].dc_table_id, t.2.bits@, t.2.values@))
                && has_segment(h, dht_bytes(1, sc[2].ac_table_id, t.3.bits@, t.3.values@));
        let tables = seq![t.0, t.1, t.2, t.3];
        assert(dc_table_of(tables, 0) == t.0 && ac_table_of(tables, 0) == t.1);
        assert(dc_table_of(tables, 1) == t.2 && ac_table_of(tables, 1) == t.3);
        assert(dc_table_of(tables, 2) == t.2 && ac_table_of(tables, 2) == t.3);
        assert(starts_with(bytes@, h + sos_bytes(sc)));
        assert forall|c: int| 0 <= c < 3 implies {
            &&& (#[trigger] sc[c]).selector == c + 1
            &&& has_segment(
                h,
                dht_bytes(0, sc[c].dc_table_id, dc_table_of(tables, c).bits@, dc_table_of(tables, c).values@),
            )
            &&& has_segment(
                h,
                dht_bytes(1, sc[c].ac_table_id, ac_table_of(tables, c).bits@, ac_table_of(tables, c).values@),
            )
        } by {}
        assert(scan_selects(bytes@, tables, 3));
    }
}

/// The number of restart markers among `events`.
pub open spec fn restart_count(events: Seq<ScanEvent>) -> nat
    decreases events.len(),
{
    if events.len() == 0 {
        0
    } else {
        restart_count(events.drop_last()) + if events.last() is Restart {
            1nat
        } else {
            0nat
        }
    }
}

/// The number of events among `events` that code a block of component `c`.
pub open spec fn blocks_coded(events: Seq<ScanEvent>, c: u8) -> nat
    decreases events.len(),
{
    if events.len() == 0 {
        0
    } else {
        blocks_coded(events.drop_last(), c) + if events.last() matches ScanEvent::Block(k, _) && k == c {
            1nat
        } else {
            0nat
        }
    }
}

proof fn lemma_counts_concat(a: Seq<ScanEvent>, b: Seq<ScanEvent>, c: u8)
    ensures
        restart_count(a + b) == restart_count(a) + restart_count(b),
        blocks_coded(a + b, c) == blocks_coded(a, c) + blocks_coded(b, c),
    decreases b.len(),
{
    if b.len() == 0 {
        assert(a + b =~= a);
    } else {
        lemma_counts_concat(a, b.drop_last(), c);
        assert((a + b).drop_last() =~= a + b.drop_last());
    }
}

proof fn lemma_counts_take_step(s: Seq<ScanEvent>, k: int, c: u8)
    requires
        0 <= k < s.len(),
    ensures
        restart_count(s.take(k + 1)) == restart_count(s.take(k)) + if s[k] is Restart {
            1nat
        } else {
            0nat
        },
        blocks_coded(s.take(k + 1), c) == blocks_coded(s.take(k), c) + if s[k] matches ScanEvent::Block(q, _) && q
            == c {
            1nat
        } else {
            0nat
        },
{
    assert(s.take(k + 1).drop_last() =~= s.take(k));
}

/// The body of an MCU holds no restart marker and its only Cr block last.
proof fn lemma_mcu_body_counts(s: Subsampling, yw: int, yh: int, cbw: int, crw: int, m: int, k: int)
    requires
        0 <= k <= mcu_body(s, yw, yh, cbw, crw, m).len(),
    ensures
        restart_count(mcu_body(s, yw, yh, cbw, crw, m).take(k)) == 0,
        blocks_coded(mcu_body(s, yw, yh, cbw, crw, m).take(k), 2) == if k == mcu_body(s, yw, yh, cbw, crw, m).len() {
            1nat
        } else {
            0nat
        },
    decreases k,
{
    let body = mcu_body(s, yw, yh, cbw, crw, m);
    let ny = s.spec_factors().0 as int * s.spec_factors().1 as int;
    vstd::arithmetic::mul::lemma_mul_nonnegative(s.spec_factors().0 as int, s.spec_factors().1 as int);
    if k == 0 {
        assert(body.take(0) =~= Seq::<ScanEvent>::empty());
    } else {
        lemma_mcu_body_counts(s, yw, yh, cbw, crw, m, k - 1);
        lemma_counts_take_step(body, k - 1, 2);
    }
}

/// The restart event before an MCU, if any, codes no block.
proof fn lemma_restart_events_counts(ri: int, m: int, c: u8)
    ensures
        restart_count(restart_events(ri, m)) == restart_events(ri, m).len(),
        blocks_coded(restart_events(ri, m), c) == 0,
        restart_events(ri, m).len() == if restart_before(ri, m) { 1int } else { 0int },
{
    let rs = restart_events(ri, m);
    let e = Seq::<ScanEvent>::empty();
    assert(restart_count(e) == 0 && blocks_coded(e, c) == 0);
    if restart_before(ri, m) {
        assert(rs.drop_last() =~= e);
        assert(rs.last() == ScanEvent::Restart);
        assert(restart_count(rs) == restart_count(rs.drop_last()) + 1);
        assert(blocks_coded(rs, c) == blocks_coded(rs.drop_last(), c));
    } else {
        assert(rs =~= e);
    }
}

/// Restarts before MCU m: one before each positive multiple of ri up to m.
proof fn lemma_restarts_before(ri: int, m: int)
    requires
        ri > 0,
        m > 0,
    ensures
        (m - 1) / ri + restart_events(ri, m).len() == m / ri,
{
    let q = (m - 1) / ri;
    let r = (m - 1) % ri;
    vstd::arithmetic::div_mod::lemma_fundamental_div_mod(m - 1, ri);
    assert(0 <= r < ri);
    if r + 1 == ri {
        assert(m == (q + 1) * ri + 0) by (nonlinear_arith)
            requires
                m - 1 == ri * q + r,
                r + 1 == ri,
        ;
        vstd::arithmetic::div_mod::lemma_fundamental_div_mod_converse(m, ri, q + 1, 0);
    } else {
        assert(m == q * ri + (r + 1)) by (nonlinear_arith)
            requires
                m - 1 == ri * q + r,
        ;
        vstd::arithmetic::div_mod::lemma_fundamental_div_mod_converse(m, ri, q, r + 1);
    }
}

/// At each block event of `ev`, the restart markers before it are the
/// units (MCUs, counted by their blocks of component `c`) before it
/// divided by `ri`.
pub open spec fn restarts_placed(ev: Seq<ScanEvent>, ri: int, c: u8) -> bool {
    forall|j: int|
        0 <= j < ev.len() && !(#[trigger] ev[j] is Restart) ==> restart_count(ev.take(j)) == if ri > 0 {
            (blocks_coded(ev.take(j), c) as int) / ri
        } else {
            0
        }
}

/// One more unit (its restart event, if any, then its body) keeps the
/// restart markers placed.
proof fn lemma_placement_step(pre: Seq<ScanEvent>, rs: Seq<ScanEvent>, body: Seq<ScanEvent>, ri: int, m: nat, c: u8)
    requires
        ri >= 0,
        restarts_placed(pre, ri, c),
        restart_count(pre) == if ri > 0 && m > 0 { ((m - 1) / ri) as nat } else { 0 },
        blocks_coded(pre, c) == m,
        rs == restart_events(ri, m as int),
        body.len() > 0,
        !(body.last() is Restart),
        forall|k: int| 0 <= k <= body.len() ==> #[trigger] restart_count(body.take(k)) == 0,
        forall|k: int| 0 <= k <= body.len() ==> #[trigger] blocks_coded(body.take(k), c) == if k == body.len() {
            1nat
        } else {
            0nat
        },
    ensures
        restarts_placed(pre + rs + body, ri, c),
        restart_count(pre + rs + body) == if ri > 0 { ((m as int) / ri) as nat } else { 0 },
        blocks_coded(pre + rs + body, c) == m + 1,
        !((pre + rs + body).last() is Restart),
{
    let ev = pre + rs + body;
    lemma_restart_events_counts(ri, m as int, c);
    lemma_counts_concat(pre, rs, c);
    lemma_counts_concat(pre + rs, body, c);
    assert(body.take(body.len() as int) =~= body);
    assert(restart_count(body.take(body.len() as int)) == 0);
    assert(blocks_coded(body.take(body.len() as int), c) == 1);
    if ri > 0 && m > 0 {
        lemma_restarts_before(ri, m as int);
    }
    if ri > 0 && m == 0 {
        assert(!restart_before(ri, 0));
    }
    assert(ev.last() == body.last());
    assert forall|j: int| 0 <= j < ev.len() && !(#[trigger] ev[j] is Restart) implies restart_count(ev.take(j))
        == if ri > 0 {
        (blocks_coded(ev.take(j), c) as int) / ri
    } else {
        0
    } by {
        if j < pre.len() {
            assert(ev.take(j) =~= pre.take(j));
            assert(ev[j] == pre[j]);
        } else if j < pre.len() + rs.len() {
            assert(ev[j] == rs[j - pre.len()]);
        } else {
            let k = j - pre.len() - rs.len();
            assert(ev.take(j) =~= pre + rs + body.take(k));
            lemma_counts_concat(pre + rs, body.take(k), c);
            assert(restart_count(body.take(k)) == 0);
            assert(blocks_coded(body.take(k), c) == 0);
        }
    }
}

/// In the interleaved scan of n MCUs a restart marker comes between two
/// MCUs exactly when the MCUs before it are a positive multiple of the
/// restart interval (T.81 B.2.4.4: each restart interval holds exactly ri
/// MCUs): at each block event, the markers written before it are the
/// completed MCUs divided by ri, and the scan does not end with a marker.
#[verifier::spinoff_prover]
pub proof fn lemma_interleaved_restart_placement(
    s: Subsampling, yw: int, yh: int, cbw: int, crw: int, ri: int, n: nat,
)
    requires
        ri >= 0,
    ensures
        forall|j: int|
            0 <= j < interleaved_events(s, yw, yh, cbw, crw, ri, n).len() && !(#[trigger] interleaved_events(
                s, yw, yh, cbw, crw, ri, n)[j] is Restart) ==> restart_count(
                interleaved_events(s, yw, yh, cbw, crw, ri, n).take(j),
            ) == if ri > 0 {
                (blocks_coded(interleaved_events(s, yw, yh, cbw, crw, ri, n).take(j), 2) as int) / ri
            } else {
                0
            },
        interleaved_events(s, yw, yh, cbw, crw, ri, n).len() > 0 ==> !(interleaved_events(
            s, yw, yh, cbw, crw, ri, n).last() is Restart),
        restart_count(interleaved_events(s, yw, yh, cbw, crw, ri, n)) == if ri > 0 && n > 0 {
            ((n - 1) / ri) as nat
        } else {
            0
        },
        blocks_coded(interleaved_events(s, yw, yh, cbw, crw, ri, n), 2) == n,
    decreases n,
{
    let ev = interleaved_events(s, yw, yh, cbw, crw, ri, n);
    if n == 0 {
        assert(restart_count(ev) == 0 && blocks_coded(ev, 2) == 0);
    } else {
        let m = (n - 1) as nat;
        lemma_interleaved_restart_placement(s, yw, yh, cbw, crw, ri, m);
        let pre = interleaved_events(s, yw, yh, cbw, crw, ri, m);
        let rs = restart_events(ri, m as int);
        let body = mcu_body(s, yw, yh, cbw, crw, m as int);
        assert(ev == pre + rs + body);
        lemma_mcu_body_shape(s, yw, yh, cbw, crw, m as int);
        lemma_placement_step(pre, rs, body, ri, m, 2);
        if ri > 0 && m > 0 {
            lemma_restarts_before(ri, m as int);
        }
        if ri > 0 {
            assert((n - 1) / ri == (m as int) / ri);
        }
    }
}

/// The body of an MCU: not empty, no restart marker, its only Cr block
/// last.
proof fn lemma_mcu_body_shape(s: Subsampling, yw: int, yh: int, cbw: int, crw: int, m: int)
    ensures
        mcu_body(s, yw, yh, cbw, crw, m).len() > 0,
        !(mcu_body(s, yw, yh, cbw, crw, m).last() is Restart),
        forall|k: int|
            0 <= k <= mcu_body(s, yw, yh, cbw, crw, m).len() ==> #[trigger] restart_count(
                mcu_body(s, yw, yh, cbw, crw, m).take(k),
            ) == 0,
        forall|k: int|
            0 <= k <= mcu_body(s, yw, yh, cbw, crw, m).len() ==> #[trigger] blocks_coded(
                mcu_body(s, yw, yh, cbw, crw, m).take(k),
                2,
            ) == if k == mcu_body(s, yw, yh, cbw, crw, m).len() {
                1nat
            } else {
                0nat
            },
{
    let body = mcu_body(s, yw, yh, cbw, crw, m);
    vstd::arithmetic::mul::lemma_mul_nonnegative(s.spec_factors().0 as int, s.spec_factors().1 as int);
    assert(body.last() == body[body.len() - 1]);
    assert forall|k: int| 0 <= k <= body.len() implies #[trigger] restart_count(body.take(k)) == 0 by {
        lemma_mcu_body_counts(s, yw, yh, cbw, crw, m, k);
    }
    assert forall|k: int| 0 <= k <= body.len() implies #[trigger] blocks_coded(body.take(k), 2) == if k
        == body.len() {
        1nat
    } else {
        0nat
    } by {
        lemma_mcu_body_counts(s, yw, yh, cbw, crw, m, k);
    }
}

/// In the grayscale scan of n blocks a restart marker comes between two
/// blocks exactly when the blocks before it are a positive multiple of the
/// restart interval (T.81 B.2.4.4): at each block event, the markers
/// written before it are the blocks before it divided by ri, and the scan
/// does not end with a marker.
#[verifier::spinoff_prover]
pub proof fn lemma_grayscale_restart_placement(ri: int, n: nat)
    requires
        ri >= 0,
    ensures
        forall|j: int|
            0 <= j < grayscale_events(ri, n).len() && !(#[trigger] grayscale_events(ri, n)[j] is Restart)
                ==> restart_count(grayscale_events(ri, n).take(j)) == if ri > 0 {
                (blocks_coded(grayscale_events(ri, n).take(j), 0) as int) / ri
            } else {
                0
            },
        grayscale_events(ri, n).len() > 0 ==> !(grayscale_events(ri, n).last() is Restart),
        restart_count(grayscale_events(ri, n)) == if ri > 0 && n > 0 {
            ((n - 1) / ri) as nat
        } else {
            0
        },
        blocks_coded(grayscale_events(ri, n), 0) == n,
    decreases n,
{
    let ev = grayscale_events(ri, n);
    if n == 0 {
        assert(restart_count(ev) == 0 && blocks_coded(ev, 0) == 0);
    } else {
        let m = (n - 1) as nat;
        lemma_grayscale_restart_placement(ri, m);
        let pre = grayscale_events(ri, m);
        let rs = restart_events(ri, m as int);
        let body = seq![ScanEvent::Block(0, m as usize)];
        assert(ev == pre + rs + body);
        let e = Seq::<ScanEvent>::empty();
        assert(restart_count(e) == 0 && blocks_coded(e, 0) == 0);
        assert(body.take(0) =~= e);
        assert(body.take(1) =~= body);
        assert(body.drop_last() =~= e);
        assert forall|k: int| 0 <= k <= body.len() implies #[trigger] restart_count(body.take(k)) == 0 by {
            if k == 0 {
                assert(body.take(0) =~= e);
            } else {
                assert(body.take(1) =~= body);
            }
        }
        assert forall|k: int| 0 <= k <= body.len() implies #[trigger] blocks_coded(body.take(k), 0) == if k
            == body.len() {
            1nat
        } else {
            0nat
        } by {
            if k == 0 {
                assert(body.take(0) =~= e);
            } else {
                assert(body.take(1) =~= body);
            }
        }
        lemma_placement_step(pre, rs, body, ri, m, 0);
        if ri > 0 && m > 0 {
            lemma_restarts_before(ri, m as int);
        }
    }
}


proof fn lemma_interleaved_prefix(s: Subsampling, yw: int, yh: int, cbw: int, crw: int, ri: int, m: nat, n: nat)
    requires
        m <= n,
    ensures
        interleaved_events(s, yw, yh, cbw, crw, ri, m).len() <= interleaved_events(s, yw, yh, cbw, crw, ri, n).len(),
        forall|i: int|
            0 <= i < interleaved_events(s, yw, yh, cbw, crw, ri, m).len() ==> interleaved_events(
                s, yw, yh, cbw, crw, ri, n)[i] == #[trigger] interleaved_events(s, yw, yh, cbw, crw, ri, m)[i],
    decreases n - m,
{
    if m < n {
        lemma_interleaved_prefix(s, yw, yh, cbw, crw, ri, m, (n - 1) as nat);
        let pre = interleaved_events(s, yw, yh, cbw, crw, ri, (n - 1) as nat);
        let rest = restart_events(ri, n - 1) + mcu_body(s, yw, yh, cbw, crw, n - 1);
        assert(interleaved_events(s, yw, yh, cbw, crw, ri, n) =~= pre + rest);
    }
}

/// The events of MCU m in the interleaved scan of n MCUs (m < n): after
/// the events of the MCUs before it and its restart marker, if any, come
/// its Hy * Vy luminance blocks, the k-th of them being the block at block
/// row mcu_row * Vmax + k / Hy and block column mcu_col * Hmax + k % Hy of
/// the luminance block grid (T.81 A.2.3: raster order within the MCU),
/// clamped to the last block row and column at the image edges; then the
/// Cb block and the Cr block at (mcu_row, mcu_col) of their grids. Here
/// mcu_row and mcu_col are m divided by, and m modulo, the MCUs per row.
pub proof fn lemma_mcu_block_order(
    s: Subsampling, yw: int, yh: int, cbw: int, crw: int, ri: int, n: nat, m: nat, k: int,
)
    requires
        m < n,
        0 <= k,
    ensures
        ({
            let ev = interleaved_events(s, yw, yh, cbw, crw, ri, n);
            let o = interleaved_events(s, yw, yh, cbw, crw, ri, m).len() + restart_events(ri, m as int).len();
            let mw = mcus_wide(s, yw);
            let row = (m as int) / mw;
            let col = (m as int) % mw;
            let hy = s.spec_factors().0 as int;
            let vy = s.spec_factors().1 as int;
            let yc = block_count(yw);
            let yr = block_count(yh);
            &&& k < hy * vy ==> o + k < ev.len() && ev[o + k] == ScanEvent::Block(
                0,
                (min_int(row * s.spec_v_max() + k / hy, yr - 1) * yc + min_int(col * s.spec_h_max() + k % hy, yc - 1))
                    as usize,
            )
            &&& k == hy * vy ==> o + k < ev.len() && ev[o + k] == ScanEvent::Block(
                1,
                (row * block_count(cbw) + col) as usize,
            )
            &&& k == hy * vy + 1 ==> o + k < ev.len() && ev[o + k] == ScanEvent::Block(
                2,
                (row * block_count(crw) + col) as usize,
            )
        }),
{
    let hy = s.spec_factors().0 as int;
    let vy = s.spec_factors().1 as int;
    vstd::arithmetic::mul::lemma_mul_nonnegative(hy, vy);
    lemma_interleaved_prefix(s, yw, yh, cbw, crw, ri, m + 1, n);
    let pre = interleaved_events(s, yw, yh, cbw, crw, ri, m);
    let rs = restart_events(ri, m as int);
    let body = mcu_body(s, yw, yh, cbw, crw, m as int);
    let up = interleaved_events(s, yw, yh, cbw, crw, ri, m + 1);
    assert(up =~= pre + rs + body);
    let o = pre.len() + rs.len();
    if k < hy * vy + 2 {
        assert(up[o + k] == body[k]);
        assert(interleaved_events(s, yw, yh, cbw, crw, ri, n)[o + k] == up[o + k]);
    }
}

} // verus!
