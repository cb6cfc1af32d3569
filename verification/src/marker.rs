//! JPEG marker segments (T.81 Annex B, JFIF 1.02).
//!
//! Every segment starts with a two-byte marker (0xFF and a code). Segment
//! lengths count the length field itself but not the marker. All values are
//! written outside entropy-coded data, so no byte stuffing is applied, and
//! each writer refuses to start while entropy-coded bits are pending.
use vstd::prelude::*;

use crate::bitstream::{be16, bitstream_error, unaligned_message, BitWriter, WriterState};
use crate::entropy::huffman_table::HuffmanTable;
use crate::error::Error;
use crate::quantize::QuantTable;
use crate::types::EncoderConfig;

verus! {

/// Start Of Image.
pub const MARKER_SOI: u16 = 0xFFD8;
/// End Of Image.
pub const MARKER_EOI: u16 = 0xFFD9;
/// Application segment 0 (JFIF).
pub const MARKER_APP0: u16 = 0xFFE0;
/// Define Quantization Table.
pub const MARKER_DQT: u16 = 0xFFDB;
/// Define Huffman Table.
pub const MARKER_DHT: u16 = 0xFFC4;
/// Start Of Frame, baseline DCT.
pub const MARKER_SOF0: u16 = 0xFFC0;
/// Start Of Scan.
pub const MARKER_SOS: u16 = 0xFFDA;
/// Define Restart Interval.
pub const MARKER_DRI: u16 = 0xFFDD;
/// First restart marker; RSTm is MARKER_RST0 + m for m in 0..8.
pub const MARKER_RST0: u16 = 0xFFD0;

/// The writer went from `before` to `after` by writing `bytes` raw, or, when
/// entropy-coded bits were pending, refused and stayed as it was.
pub open spec fn wrote_raw(r: Result<(), Error>, before: WriterState, after: WriterState, bytes: Seq<u8>) -> bool {
    &&& (r is Ok <==> before.1.len() == 0)
    &&& r is Ok ==> after == (before.0 + bytes, before.1)
    &&& r is Err ==> after == before && bitstream_error(r, unaligned_message(before.1.len()))
}

/// The APP0 JFIF segment: version 1.02, the density fields of the
/// configuration, no thumbnail.
pub open spec fn app0_bytes(config: EncoderConfig) -> Seq<u8> {
    be16(MARKER_APP0) + be16(16) + seq![0x4Au8, 0x46, 0x49, 0x46, 0x00, 1, 2, config.density_units]
        + be16(config.x_density) + be16(config.y_density) + seq![0u8, 0]
}

/// The DQT segment of one 8-bit table: Pq = 0, Tq = low 4 bits of the id,
/// then the 64 values in zig-zag order, one byte each.
pub open spec fn dqt_bytes(table_id: u8, zigzag: Seq<u16>) -> Seq<u8> {
    be16(MARKER_DQT) + be16(67) + seq![table_id & 0x0F] + Seq::new(64, |k: int| zigzag[k] as u8)
}

/// Sum of a sequence of bytes.
pub open spec fn byte_sum(s: Seq<u8>) -> int
    decreases s.len(),
{
    if s.len() == 0 {
        0
    } else {
        byte_sum(s.drop_last()) + s.last()
    }
}

/// The DHT segment of one table: Tc (class) and Th (id) in one byte, then
/// the 16 BITS counts and the HUFFVAL list. The length field is
/// 2 + 1 + 16 + the sum of the counts.
pub open spec fn dht_bytes(class: u8, table_id: u8, bits: Seq<u8>, values: Seq<u8>) -> Seq<u8> {
    be16(MARKER_DHT) + be16((19 + byte_sum(bits)) as u16) + seq![((class << 4u8) | (table_id & 0x0F)) as u8]
        + bits + values
}

/// A frame component of the SOF0 header (T.81 §B.2.2).
pub struct FrameComponent {
    /// Component identifier Ci.
    pub id: u8,
    /// Horizontal sampling factor Hi (1..=4).
    pub h_sampling: u8,
    /// Vertical sampling factor Vi (1..=4).
    pub v_sampling: u8,
    /// Quantization table selector Tqi.
    pub quant_table_id: u8,
}

/// The three bytes of a frame component: Ci, Hi << 4 | Vi, Tqi.
pub open spec fn frame_component_bytes(c: FrameComponent) -> Seq<u8> {
    seq![c.id, ((c.h_sampling << 4u8) | c.v_sampling) as u8, c.quant_table_id]
}

/// The bytes of the components from index `n` on.
pub open spec fn frame_components_bytes(cs: Seq<FrameComponent>, n: nat) -> Seq<u8>
    decreases n,
{
    if n == 0 {
        Seq::empty()
    } else {
        frame_components_bytes(cs, (n - 1) as nat) + frame_component_bytes(cs[n - 1])
    }
}

/// The SOF0 segment: Lf = 8 + 3 * Nf, precision 8, Y (height), X (width),
/// Nf, then each component.
pub open spec fn sof0_bytes(width: u16, height: u16, cs: Seq<FrameComponent>) -> Seq<u8> {
    be16(MARKER_SOF0) + be16((8 + 3 * cs.len()) as u16) + seq![8u8] + be16(height) + be16(width)
        + seq![cs.len() as u8] + frame_components_bytes(cs, cs.len())
}

/// A scan component of the SOS header (T.81 §B.2.3).
pub struct ScanComponent {
    /// Component selector Csj (matches a frame component id).
    pub selector: u8,
    /// DC entropy table selector Tdj.
    pub dc_table_id: u8,
    /// AC entropy table selector Taj.
    pub ac_table_id: u8,
}

/// The two bytes of a scan component: Csj, Tdj << 4 | Taj.
pub open spec fn scan_component_bytes(c: ScanComponent) -> Seq<u8> {
    seq![c.selector, ((c.dc_table_id << 4u8) | c.ac_table_id) as u8]
}

/// The bytes of the first `n` scan components.
pub open spec fn scan_components_bytes(cs: Seq<ScanComponent>, n: nat) -> Seq<u8>
    decreases n,
{
    if n == 0 {
        Seq::empty()
    } else {
        scan_components_bytes(cs, (n - 1) as nat) + scan_component_bytes(cs[n - 1])
    }
}

/// The SOS segment: Ls = 6 + 2 * Ns, Ns, each component, then Ss = 0,
/// Se = 63, Ah = Al = 0 (baseline).
pub open spec fn sos_bytes(cs: Seq<ScanComponent>) -> Seq<u8> {
    be16(MARKER_SOS) + be16((6 + 2 * cs.len()) as u16) + seq![cs.len() as u8]
        + scan_components_bytes(cs, cs.len()) + seq![0u8, 63, 0]
}

/// The DRI segment, or nothing for a zero interval.
pub open spec fn dri_bytes(restart_interval: u16) -> Seq<u8> {
    if restart_interval > 0 {
        be16(MARKER_DRI) + be16(4) + be16(restart_interval)
    } else {
        Seq::empty()
    }
}

/// The restart marker RSTm with m = counter mod 8.
pub open spec fn rst_bytes(restart_counter: u16) -> Seq<u8> {
    be16((MARKER_RST0 + restart_counter % 8) as u16)
}

/// Write the SOI marker (0xFFD8).
pub fn write_soi(w: &mut BitWriter) -> (r: Result<(), Error>)
    requires
        old(w).wf(),
    ensures
        final(w).wf(),
        wrote_raw(r, old(w)@, final(w)@, be16(MARKER_SOI)),
{
    w.write_u16_be(MARKER_SOI)
}

/// Write the EOI marker (0xFFD9).
pub fn write_eoi(w: &mut BitWriter) -> (r: Result<(), Error>)
    requires
        old(w).wf(),
    ensures
        final(w).wf(),
        wrote_raw(r, old(w)@, final(w)@, be16(MARKER_EOI)),
{
    w.write_u16_be(MARKER_EOI)
}

/// Write the APP0 JFIF 1.02 segment (16 bytes after the marker).
pub fn write_app0_jfif(w: &mut BitWriter, config: &EncoderConfig) -> (r: Result<(), Error>)
    requires
        old(w).wf(),
    ensures
        final(w).wf(),
        wrote_raw(r, old(w)@, final(w)@, app0_bytes(*config)),
{
    let ghost start = w@;
    w.write_u16_be(MARKER_APP0)?;
    w.write_u16_be(16)?;
    let ident: [u8; 5] = [0x4A, 0x46, 0x49, 0x46, 0x00];
    w.write_raw_bytes(&ident)?;
    w.write_raw_byte(1)?;
    w.write_raw_byte(2)?;
    w.write_raw_byte(config.density_units)?;
    w.write_u16_be(config.x_density)?;
    w.write_u16_be(config.y_density)?;
    w.write_raw_byte(0)?;
    w.write_raw_byte(0)?;
    proof {
        assert(w@.0 =~= start.0 + app0_bytes(*config));
    }
    Ok(())
}

/// Write a DQT segment for one 8-bit quantization table: Lq = 67, then
/// Pq = 0 with Tq = `table_id & 0x0F`, then the 64 values in zig-zag order
/// (each taken to its low byte).
pub fn write_dqt(w: &mut BitWriter, table_id: u8, table: &QuantTable) -> (r: Result<(), Error>)
    requires
        old(w).wf(),
    ensures
        final(w).wf(),
        wrote_raw(r, old(w)@, final(w)@, dqt_bytes(table_id, table.zigzag_values@)),
{
    let ghost start = w@;
    w.write_u16_be(MARKER_DQT)?;
    w.write_u16_be(67)?;
    w.write_raw_byte(table_id & 0x0F)?;
    let ghost header = w@.0;
    let mut k: usize = 0;
    while k < 64
        invariant
            k <= 64,
            w.wf(),
            w@.1.len() == 0,
            w@.1 == start.1,
            w@.0 == header + Seq::new(k as nat, |j: int| table.zigzag_values@[j] as u8),
        decreases 64 - k,
    {
        let qk = table.zigzag_values[k];
        w.write_raw_byte(qk as u8)?;
        proof {
            assert(Seq::new((k + 1) as nat, |j: int| table.zigzag_values@[j] as u8) =~= Seq::new(
                k as nat,
                |j: int| table.zigzag_values@[j] as u8,
            ).push(qk as u8));
        }
        k = k + 1;
    }
    proof {
        assert(w@.0 =~= start.0 + dqt_bytes(table_id, table.zigzag_values@));
    }
    Ok(())
}

/// Write a DHT segment: class (0 = DC, 1 = AC) and id in one byte, the 16
/// BITS counts, then the HUFFVAL symbols.
pub fn write_dht(w: &mut BitWriter, class: u8, table_id: u8, table: &HuffmanTable) -> (r: Result<(), Error>)
    requires
        old(w).wf(),
    ensures
        final(w).wf(),
        wrote_raw(r, old(w)@, final(w)@, dht_bytes(class, table_id, table.bits@, table.values@)),
{
    let ghost start = w@;
    w.write_u16_be(MARKER_DHT)?;

    let mut mt: u16 = 0;
    let mut i: usize = 0;
    while i < 16
        invariant
            i <= 16,
            mt == byte_sum(table.bits@.take(i as int)),
            mt <= 255 * i,
        decreases 16 - i,
    {
        proof {
            assert(table.bits@.take((i + 1) as int).drop_last() =~= table.bits@.take(i as int));
        }
        mt = mt + table.bits[i] as u16;
        i = i + 1;
    }
    assert(table.bits@.take(16) =~= table.bits@);
    let length = 2 + 1 + 16 + mt;
    w.write_u16_be(length)?;

    w.write_raw_byte((class << 4) | (table_id & 0x0F))?;
    w.write_raw_bytes(&table.bits)?;
    w.write_raw_bytes(table.values.as_slice())?;
    proof {
        assert(w@.0 =~= start.0 + dht_bytes(class, table_id, table.bits@, table.values@));
    }
    Ok(())
}

/// Write the SOF0 (baseline DCT) frame header: Lf = 8 + 3 * Nf, 8-bit
/// precision, height, width, Nf, then per component its id, sampling
/// factors (H << 4 | V) and quantization table.
pub fn write_sof0(w: &mut BitWriter, width: u16, height: u16, components: &[FrameComponent]) -> (r: Result<(), Error>)
    requires
        old(w).wf(),
        8 + 3 * components@.len() <= 0xFFFF,
    ensures
        final(w).wf(),
        wrote_raw(r, old(w)@, final(w)@, sof0_bytes(width, height, components@)),
{
    let ghost start = w@;
    w.write_u16_be(MARKER_SOF0)?;
    let nf = components.len() as u16;
    w.write_u16_be(8 + 3 * nf)?;
    w.write_raw_byte(8)?;
    w.write_u16_be(height)?;
    w.write_u16_be(width)?;
    w.write_raw_byte(nf as u8)?;
    let ghost header = w@.0;
    let mut i: usize = 0;
    while i < components.len()
        invariant
            i <= components@.len(),
            w.wf(),
            w@.1.len() == 0,
            w@.1 == start.1,
            w@.0 == header + frame_components_bytes(components@, i as nat),
        decreases components@.len() - i,
    {
        let comp = &components[i];
        w.write_raw_byte(comp.id)?;
        w.write_raw_byte((comp.h_sampling << 4) | comp.v_sampling)?;
        w.write_raw_byte(comp.quant_table_id)?;
        proof {
            assert(w@.0 =~= header + frame_components_bytes(components@, (i + 1) as nat));
        }
        i = i + 1;
    }
    proof {
        assert(w@.0 =~= start.0 + sof0_bytes(width, height, components@));
    }
    Ok(())
}

/// Write the SOS header of a baseline scan: Ls = 6 + 2 * Ns, Ns, per
/// component its selector and table ids (DC << 4 | AC), then Ss = 0,
/// Se = 63, Ah = Al = 0.
pub fn write_sos(w: &mut BitWriter, components: &[ScanComponent]) -> (r: Result<(), Error>)
    requires
        old(w).wf(),
        6 + 2 * components@.len() <= 0xFFFF,
    ensures
        final(w).wf(),
        wrote_raw(r, old(w)@, final(w)@, sos_bytes(components@)),
{
    let ghost start = w@;
    w.write_u16_be(MARKER_SOS)?;
    let ns = components.len() as u16;
    w.write_u16_be(6 + 2 * ns)?;
    w.write_raw_byte(ns as u8)?;
    let ghost header = w@.0;
    let mut i: usize = 0;
    while i < components.len()
        invariant
            i <= components@.len(),
            w.wf(),
            w@.1.len() == 0,
            w@.1 == start.1,
            w@.0 == header + scan_components_bytes(components@, i as nat),
        decreases components@.len() - i,
    {
        let comp = &components[i];
        w.write_raw_byte(comp.selector)?;
        w.write_raw_byte((comp.dc_table_id << 4) | comp.ac_table_id)?;
        proof {
            assert(w@.0 =~= header + scan_components_bytes(components@, (i + 1) as nat));
        }
        i = i + 1;
    }
    w.write_raw_byte(0)?;
    w.write_raw_byte(63)?;
    w.write_raw_byte(0)?;
    proof {
        assert(w@.0 =~= start.0 + sos_bytes(components@));
    }
    Ok(())
}

/// Write the DRI segment for a non-zero restart interval; a zero interval
/// writes nothing and always succeeds.
pub fn write_dri(w: &mut BitWriter, restart_interval: u16) -> (r: Result<(), Error>)
    requires
        old(w).wf(),
    ensures
        final(w).wf(),
        restart_interval == 0 ==> r is Ok && final(w)@ == old(w)@,
        restart_interval > 0 ==> wrote_raw(r, old(w)@, final(w)@, dri_bytes(restart_interval)),
{
    let ghost start = w@;
    if restart_interval > 0 {
        w.write_u16_be(MARKER_DRI)?;
        w.write_u16_be(4)?;
        w.write_u16_be(restart_interval)?;
        proof {
            assert(w@.0 =~= start.0 + dri_bytes(restart_interval));
        }
    }
    Ok(())
}

/// Write the restart marker RSTm with m = `restart_counter` mod 8.
pub fn write_rst(w: &mut BitWriter, restart_counter: u16) -> (r: Result<(), Error>)
    requires
        old(w).wf(),
    ensures
        final(w).wf(),
        wrote_raw(r, old(w)@, final(w)@, rst_bytes(restart_counter)),
{
    let m = restart_counter % 8;
    w.write_u16_be(MARKER_RST0 + m)
}

} // verus!
