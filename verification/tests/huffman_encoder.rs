use lib::bitstream::BitWriter;
use lib::entropy::huffman_encoder::{encode_additional_bits, encode_block, encode_blocks};
use lib::entropy::huffman_table::{build_table, collect_frequencies, HuffmanTable, MAX_DC_CATEGORIES};
use lib::error::Error;

fn tables_for(blocks: &[[i16; 64]]) -> (HuffmanTable, HuffmanTable) {
    let (dc_freq, ac_freq) = collect_frequencies(blocks);
    let dc_table = build_table(&dc_freq.counts, MAX_DC_CATEGORIES - 1);
    let ac_table = build_table(&ac_freq.counts, 255);
    (dc_table, ac_table)
}

fn empty_table() -> HuffmanTable {
    HuffmanTable { bits: [0u8; 16], values: vec![], ehufco: [0u32; 256], ehufsi: [0u8; 256] }
}

#[test]
fn encode_single_zero_block() {
    let block = [0i16; 64];
    let (dc, ac) = tables_for(&[block]);
    let mut writer = BitWriter::with_capacity(64);
    let mut prev_dc = 0i16;
    encode_block(&block, &dc, &ac, &mut prev_dc, &mut writer).unwrap();
    writer.flush_with_ones().unwrap();
    let data = writer.into_bytes();
    assert!(!data.is_empty());
    assert_eq!(prev_dc, 0);
}

#[test]
fn encode_single_zero_block_bits() {
    // DC category 0 and EOB each get the single one-bit code 0:
    // 0, 0, then six padding ones.
    let block = [0i16; 64];
    let (dc, ac) = tables_for(&[block]);
    let mut writer = BitWriter::with_capacity(64);
    let mut prev_dc = 0i16;
    encode_block(&block, &dc, &ac, &mut prev_dc, &mut writer).unwrap();
    writer.flush_with_ones().unwrap();
    assert_eq!(writer.into_bytes(), [0x3F]);
}

#[test]
fn encode_dc_prediction_updates() {
    let mut b1 = [0i16; 64];
    b1[0] = 10;
    let mut b2 = [0i16; 64];
    b2[0] = 20;
    let blocks = [b1, b2];
    let (dc, ac) = tables_for(&blocks);
    let mut writer = BitWriter::with_capacity(128);
    let mut prev_dc = 0i16;
    encode_block(&blocks[0], &dc, &ac, &mut prev_dc, &mut writer).unwrap();
    assert_eq!(prev_dc, 10);
    encode_block(&blocks[1], &dc, &ac, &mut prev_dc, &mut writer).unwrap();
    assert_eq!(prev_dc, 20);
}

#[test]
fn encode_blocks_batch() {
    let mut blocks = Vec::new();
    for i in 0..5 {
        let mut b = [0i16; 64];
        b[0] = i * 10;
        b[1] = 5;
        blocks.push(b);
    }
    let (dc, ac) = tables_for(&blocks);
    let mut writer = BitWriter::with_capacity(256);
    let mut prev_dc = 0i16;
    encode_blocks(&blocks, &dc, &ac, &mut prev_dc, &mut writer).unwrap();
    assert_eq!(prev_dc, 40);
}

#[test]
fn encode_block_with_large_ac_run() {
    let mut block = [0i16; 64];
    block[0] = 0;
    block[21] = 10;
    let (dc, ac) = tables_for(&[block]);
    let mut writer = BitWriter::with_capacity(128);
    let mut prev_dc = 0i16;
    encode_block(&block, &dc, &ac, &mut prev_dc, &mut writer).unwrap();
}

#[test]
fn encode_block_with_all_nonzero_ac() {
    let mut block = [0i16; 64];
    block[0] = 50;
    for coeff in block.iter_mut().skip(1) {
        *coeff = 1;
    }
    let (dc, ac) = tables_for(&[block]);
    let mut writer = BitWriter::with_capacity(256);
    let mut prev_dc = 0i16;
    encode_block(&block, &dc, &ac, &mut prev_dc, &mut writer).unwrap();
}

#[test]
fn encode_negative_dc_diff() {
    let mut b1 = [0i16; 64];
    b1[0] = 50;
    let mut b2 = [0i16; 64];
    b2[0] = 10;
    let blocks = [b1, b2];
    let (dc, ac) = tables_for(&blocks);
    let mut writer = BitWriter::with_capacity(128);
    let mut prev_dc = 0i16;
    encode_blocks(&blocks, &dc, &ac, &mut prev_dc, &mut writer).unwrap();
}

#[test]
fn encode_additional_bits_positive() {
    assert_eq!(encode_additional_bits(5, 3), 5);
}

#[test]
fn encode_additional_bits_negative() {
    assert_eq!(encode_additional_bits(-5, 3), 2);
}

#[test]
fn encode_additional_bits_minus_one() {
    assert_eq!(encode_additional_bits(-1, 1), 0);
}

#[test]
fn encode_additional_bits_plus_one() {
    assert_eq!(encode_additional_bits(1, 1), 1);
}

#[test]
fn encode_additional_bits_extremes() {
    assert_eq!(encode_additional_bits(-32767, 15), 0);
    assert_eq!(encode_additional_bits(-16384, 15), 0x3FFF);
    assert_eq!(encode_additional_bits(0, 0), 0);
}

#[test]
fn encode_dc_missing_code_returns_error() {
    let block = [0i16; 64];
    let mut writer = BitWriter::with_capacity(64);
    let mut prev_dc = 1i16;
    let result = encode_block(&block, &empty_table(), &empty_table(), &mut prev_dc, &mut writer);
    assert!(result.is_err());
}

#[test]
fn encode_dc_missing_code_names_the_category() {
    let block = [0i16; 64];
    let mut writer = BitWriter::with_capacity(64);
    let mut prev_dc = 1i16;
    match encode_block(&block, &empty_table(), &empty_table(), &mut prev_dc, &mut writer) {
        Err(Error::MissingHuffmanCode { symbol, .. }) => assert_eq!(symbol, 1),
        other => panic!("unexpected result {:?}", other),
    }
}

#[test]
fn encode_ac_eob_missing_code_returns_error() {
    let mut dc_table = empty_table();
    dc_table.ehufsi[0] = 1;
    dc_table.ehufco[0] = 0;
    let ac_table = empty_table();
    let block = [0i16; 64];
    let mut writer = BitWriter::with_capacity(64);
    let mut prev_dc = 0i16;
    let result = encode_block(&block, &dc_table, &ac_table, &mut prev_dc, &mut writer);
    assert!(result.is_err());
}

#[test]
fn encode_ac_rs_missing_code_returns_error() {
    let mut dc_table = empty_table();
    dc_table.ehufsi[0] = 1;
    dc_table.ehufco[0] = 0;
    let mut ac_table = empty_table();
    ac_table.ehufsi[0x00] = 1;
    ac_table.ehufco[0x00] = 0;
    let mut block = [0i16; 64];
    block[1] = 1;
    let mut writer = BitWriter::with_capacity(64);
    let mut prev_dc = 0i16;
    let result = encode_block(&block, &dc_table, &ac_table, &mut prev_dc, &mut writer);
    assert!(result.is_err());
}

#[test]
fn encode_ac_zrl_missing_code_returns_error() {
    let mut dc_table = empty_table();
    dc_table.ehufsi[0] = 1;
    dc_table.ehufco[0] = 0;
    let ac_table = empty_table();
    let mut block = [0i16; 64];
    block[17] = 5;
    let mut writer = BitWriter::with_capacity(64);
    let mut prev_dc = 0i16;
    let result = encode_block(&block, &dc_table, &ac_table, &mut prev_dc, &mut writer);
    assert!(result.is_err());
}

#[test]
fn missing_dc_code_leaves_the_writer_unchanged_and_names_the_difference() {
    let block = [0i16; 64];
    let mut writer = BitWriter::with_capacity(64);
    let mut prev_dc = 1i16;
    match encode_block(&block, &empty_table(), &empty_table(), &mut prev_dc, &mut writer) {
        Err(Error::MissingHuffmanCode { symbol, context }) => {
            assert_eq!(symbol, 1);
            assert_eq!(context, "DC category 1 (diff=-1)");
        }
        other => panic!("unexpected result {:?}", other),
    }
    assert_eq!(prev_dc, 0);
    writer.flush_with_ones().unwrap();
    assert!(writer.into_bytes().is_empty());
}

#[test]
fn missing_ac_code_keeps_the_bits_written_before_it() {
    // DC category 0 has the one-bit code 0; the AC table codes only EOB, so
    // the coefficient 5 after three zeros (symbol 0x33) has no code.
    let mut dc_table = empty_table();
    dc_table.ehufsi[0] = 1;
    let mut ac_table = empty_table();
    ac_table.ehufsi[0x00] = 1;
    let mut block = [0i16; 64];
    block[4] = 5;
    let mut writer = BitWriter::with_capacity(64);
    let mut prev_dc = 0i16;
    match encode_block(&block, &dc_table, &ac_table, &mut prev_dc, &mut writer) {
        Err(Error::MissingHuffmanCode { symbol, context }) => {
            assert_eq!(symbol, 0x33);
            assert_eq!(context, "AC symbol 0x33 (run=3, category=3, coeff=5)");
        }
        other => panic!("unexpected result {:?}", other),
    }
    // Only the DC code 0 was written: padded with ones it is 0x7F.
    writer.flush_with_ones().unwrap();
    assert_eq!(writer.into_bytes(), [0x7F]);
}

#[test]
fn missing_code_in_a_later_block_keeps_its_prediction() {
    let mut dc_table = empty_table();
    dc_table.ehufsi[0] = 1;
    let mut ac_table = empty_table();
    ac_table.ehufsi[0x00] = 1;
    let first = [0i16; 64];
    let mut second = [0i16; 64];
    second[0] = 3;
    let mut writer = BitWriter::with_capacity(64);
    let mut prev_dc = 0i16;
    let result = encode_blocks(&[first, second, first], &dc_table, &ac_table, &mut prev_dc, &mut writer);
    assert!(matches!(result, Err(Error::MissingHuffmanCode { symbol: 2, .. })));
    assert_eq!(prev_dc, 3);
}
