use lib::bitstream::BitWriter;
use lib::entropy::huffman_table::build_table;
use lib::marker::{
    write_app0_jfif, write_dht, write_dqt, write_dri, write_eoi, write_rst, write_soi, write_sof0,
    write_sos, FrameComponent, ScanComponent,
};
use lib::quantize::{QuantTable, STD_LUMINANCE_QUANT};
use lib::types::EncoderConfig;

#[test]
fn soi_is_ffd8() {
    let mut w = BitWriter::with_capacity(16);
    write_soi(&mut w).unwrap();
    assert_eq!(w.into_bytes(), [0xFF, 0xD8]);
}

#[test]
fn eoi_is_ffd9() {
    let mut w = BitWriter::with_capacity(16);
    write_eoi(&mut w).unwrap();
    assert_eq!(w.into_bytes(), [0xFF, 0xD9]);
}

#[test]
fn app0_jfif_structure() {
    let config = EncoderConfig::default();
    let mut w = BitWriter::with_capacity(64);
    write_app0_jfif(&mut w, &config).unwrap();
    let data = w.into_bytes();
    assert_eq!(data[0], 0xFF);
    assert_eq!(data[1], 0xE0);
    assert_eq!(data[2], 0x00);
    assert_eq!(data[3], 0x10);
    assert_eq!(&data[4..9], b"JFIF\0");
    assert_eq!(data[9], 1);
    assert_eq!(data[10], 2);
}

#[test]
fn app0_density_fields() {
    let config = EncoderConfig { density_units: 1, x_density: 300, y_density: 72, ..EncoderConfig::default() };
    let mut w = BitWriter::with_capacity(64);
    write_app0_jfif(&mut w, &config).unwrap();
    let data = w.into_bytes();
    assert_eq!(data.len(), 18);
    assert_eq!(&data[11..18], &[1, 0x01, 0x2C, 0x00, 0x48, 0, 0]);
}

#[test]
fn dqt_segment_length() {
    let qt = QuantTable::from_standard(&STD_LUMINANCE_QUANT, 50);
    let mut w = BitWriter::with_capacity(128);
    write_dqt(&mut w, 0, &qt).unwrap();
    let data = w.into_bytes();
    assert_eq!(data[0], 0xFF);
    assert_eq!(data[1], 0xDB);
    assert_eq!(data[2], 0x00);
    assert_eq!(data[3], 0x43);
    assert_eq!(data[4], 0x00);
    assert_eq!(data.len(), 2 + 2 + 1 + 64);
}

#[test]
fn dqt_values_in_zigzag_order() {
    let qt = QuantTable::from_standard(&STD_LUMINANCE_QUANT, 50);
    let mut w = BitWriter::with_capacity(128);
    write_dqt(&mut w, 0x13, &qt).unwrap();
    let data = w.into_bytes();
    assert_eq!(data[4], 0x03);
    // zig-zag order: natural indices 0, 1, 8, 16 → 16, 11, 12, 14.
    assert_eq!(&data[5..9], &[16, 11, 12, 14]);
}

#[test]
fn dht_segment_layout() {
    let table = build_table(&[3u32, 1], 1);
    let mut w = BitWriter::with_capacity(64);
    write_dht(&mut w, 1, 2, &table).unwrap();
    let data = w.into_bytes();
    let total: usize = table.bits.iter().map(|&b| b as usize).sum();
    assert_eq!(&data[0..2], &[0xFF, 0xC4]);
    assert_eq!(((data[2] as usize) << 8) | data[3] as usize, 19 + total);
    assert_eq!(data[4], 0x12);
    assert_eq!(&data[5..21], &table.bits);
    assert_eq!(&data[21..], table.values.as_slice());
}

#[test]
fn sof0_baseline_marker() {
    let components = [
        FrameComponent { id: 1, h_sampling: 2, v_sampling: 2, quant_table_id: 0 },
        FrameComponent { id: 2, h_sampling: 1, v_sampling: 1, quant_table_id: 1 },
        FrameComponent { id: 3, h_sampling: 1, v_sampling: 1, quant_table_id: 1 },
    ];
    let mut w = BitWriter::with_capacity(64);
    write_sof0(&mut w, 640, 480, &components).unwrap();
    let data = w.into_bytes();
    assert_eq!(data[0], 0xFF);
    assert_eq!(data[1], 0xC0);
    assert_eq!(data[4], 8);
    assert_eq!(data[5], 0x01);
    assert_eq!(data[6], 0xE0);
    assert_eq!(data[7], 0x02);
    assert_eq!(data[8], 0x80);
    assert_eq!(data[9], 3);
}

#[test]
fn sof0_component_bytes() {
    let components = [FrameComponent { id: 1, h_sampling: 2, v_sampling: 1, quant_table_id: 0 }];
    let mut w = BitWriter::with_capacity(64);
    write_sof0(&mut w, 1, 1, &components).unwrap();
    assert_eq!(w.into_bytes(), [0xFF, 0xC0, 0, 11, 8, 0, 1, 0, 1, 1, 1, 0x21, 0]);
}

#[test]
fn sos_baseline_params() {
    let components = [ScanComponent { selector: 1, dc_table_id: 0, ac_table_id: 0 }];
    let mut w = BitWriter::with_capacity(32);
    write_sos(&mut w, &components).unwrap();
    let data = w.into_bytes();
    assert_eq!(data[0], 0xFF);
    assert_eq!(data[1], 0xDA);
    assert_eq!(data[4], 1);
    let tail = &data[data.len() - 3..];
    assert_eq!(tail, [0, 63, 0]);
}

#[test]
fn sos_three_components() {
    let components = [
        ScanComponent { selector: 1, dc_table_id: 0, ac_table_id: 0 },
        ScanComponent { selector: 2, dc_table_id: 1, ac_table_id: 1 },
        ScanComponent { selector: 3, dc_table_id: 1, ac_table_id: 1 },
    ];
    let mut w = BitWriter::with_capacity(32);
    write_sos(&mut w, &components).unwrap();
    assert_eq!(w.into_bytes(), [0xFF, 0xDA, 0, 12, 3, 1, 0x00, 2, 0x11, 3, 0x11, 0, 63, 0]);
}

#[test]
fn dri_zero_interval_emits_nothing() {
    let mut w = BitWriter::with_capacity(16);
    write_dri(&mut w, 0).unwrap();
    assert!(w.into_bytes().is_empty());
}

#[test]
fn dri_nonzero_emits_marker() {
    let mut w = BitWriter::with_capacity(16);
    write_dri(&mut w, 100).unwrap();
    let data = w.into_bytes();
    assert_eq!(data[0], 0xFF);
    assert_eq!(data[1], 0xDD);
    assert_eq!(data[2], 0x00);
    assert_eq!(data[3], 0x04);
    assert_eq!(data[4], 0x00);
    assert_eq!(data[5], 0x64);
}

#[test]
fn rst_markers_cycle_modulo_8() {
    for counter in 0..16u16 {
        let mut w = BitWriter::with_capacity(4);
        write_rst(&mut w, counter).unwrap();
        let data = w.into_bytes();
        let expected_m = (counter % 8) as u8;
        assert_eq!(data[0], 0xFF);
        assert_eq!(data[1], 0xD0 + expected_m);
    }
}

#[test]
fn marker_refused_with_pending_bits() {
    let mut w = BitWriter::with_capacity(16);
    w.write_bits(1, 1).unwrap();
    assert!(write_soi(&mut w).is_err());
    assert!(write_dri(&mut w, 0).is_ok());
    assert!(write_dri(&mut w, 5).is_err());
    w.flush_with_ones().unwrap();
    assert_eq!(w.into_bytes(), [0xFF, 0x00]);
}
