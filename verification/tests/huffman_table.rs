use lib::entropy::huffman_table::{
    build_table, category, collect_frequencies, AcFrequencies, DcFrequencies, MAX_DC_CATEGORIES,
};

#[test]
fn category_zero() {
    assert_eq!(category(0), 0);
}

#[test]
fn category_positive_values() {
    assert_eq!(category(1), 1);
    assert_eq!(category(2), 2);
    assert_eq!(category(3), 2);
    assert_eq!(category(4), 3);
    assert_eq!(category(7), 3);
    assert_eq!(category(255), 8);
    assert_eq!(category(1023), 10);
}

#[test]
fn category_negative_values() {
    assert_eq!(category(-1), 1);
    assert_eq!(category(-3), 2);
    assert_eq!(category(-7), 3);
    assert_eq!(category(-255), 8);
}

#[test]
fn category_matches_t81_table_f1() {
    assert_eq!(category(-1), 1);
    assert_eq!(category(1), 1);
    for v in [2, 3, -2, -3] {
        assert_eq!(category(v), 2);
    }
    for v in [4, 7, -4, -7] {
        assert_eq!(category(v), 3);
    }
    for v in [8, 15, -8, -15] {
        assert_eq!(category(v), 4);
    }
}

#[test]
fn category_extremes() {
    assert_eq!(category(i16::MAX), 15);
    assert_eq!(category(i16::MIN), 15);
    assert_eq!(category(16384), 15);
    assert_eq!(category(16383), 14);
}

#[test]
fn build_table_single_symbol() {
    let freq = [0u32, 0, 0, 100, 0];
    let table = build_table(&freq, 4);
    assert!(table.ehufsi[3] > 0, "symbol 3 should have a code");
}

#[test]
fn build_table_single_symbol_is_one_bit_code() {
    let freq = [0u32, 0, 0, 100, 0];
    let table = build_table(&freq, 4);
    assert_eq!(table.values, vec![3]);
    assert_eq!(table.bits[0], 1);
    assert_eq!(table.ehufsi[3], 1);
    assert_eq!(table.ehufco[3], 0);
}

#[test]
fn build_table_all_symbols_get_codes() {
    let freq = [10u32, 20, 30, 40, 50];
    let table = build_table(&freq, 4);
    for i in 0..5 {
        assert!(table.ehufsi[i] > 0, "symbol {} should have a code", i);
    }
}

#[test]
fn build_table_codes_are_max_16_bits() {
    let freq = [1u32; 256];
    let table = build_table(&freq, 255);
    for i in 0..256 {
        if table.ehufsi[i] > 0 {
            assert!(table.ehufsi[i] <= 16, "symbol {} has code length {} > 16", i, table.ehufsi[i]);
        }
    }
}

#[test]
fn build_table_prefix_free() {
    let freq = [5u32, 10, 15, 20, 25, 30, 35, 40];
    let table = build_table(&freq, 7);
    let mut kraft_sum = 0.0f64;
    for i in 0..256 {
        if table.ehufsi[i] > 0 {
            kraft_sum += 2.0f64.powi(-(table.ehufsi[i] as i32));
        }
    }
    assert!(kraft_sum <= 1.0 + 1e-10, "Kraft inequality violated: sum = {}", kraft_sum);
}

#[test]
fn build_table_codes_are_canonical() {
    let freq = [5u32, 10, 15, 20, 25, 30, 35, 40];
    let table = build_table(&freq, 7);
    // Codes of equal length are consecutive in HUFFVAL order; no code is a
    // prefix of another.
    let syms: Vec<usize> = table.values.iter().map(|&v| v as usize).collect();
    for a in &syms {
        for b in &syms {
            if a != b {
                let (la, lb) = (table.ehufsi[*a] as u32, table.ehufsi[*b] as u32);
                if la <= lb {
                    assert_ne!(table.ehufco[*b] >> (lb - la), table.ehufco[*a]);
                }
            }
        }
    }
}

#[test]
fn build_table_empty_frequencies() {
    let freq = [0u32; 16];
    let table = build_table(&freq, 15);
    let total: u8 = table.bits.iter().sum();
    assert!(total > 0, "empty table should still have at least one code");
}

#[test]
fn build_table_shorter_codes_for_frequent_symbols() {
    let freq = [1000u32, 1];
    let table = build_table(&freq, 1);
    assert!(
        table.ehufsi[0] <= table.ehufsi[1],
        "frequent symbol should have shorter or equal code: {} vs {}",
        table.ehufsi[0], table.ehufsi[1],
    );
}

#[test]
fn collect_frequencies_dc_differences() {
    let mut blocks = Vec::new();
    let mut b1 = [0i16; 64];
    b1[0] = 10;
    blocks.push(b1);
    let mut b2 = [0i16; 64];
    b2[0] = 20;
    blocks.push(b2);
    let (dc_freq, _) = collect_frequencies(&blocks);
    assert_eq!(dc_freq.counts[4], 2);
}

#[test]
fn collect_frequencies_eob() {
    let mut block = [0i16; 64];
    block[0] = 5;
    let (_, ac_freq) = collect_frequencies(&[block]);
    assert_eq!(ac_freq.counts[0x00], 1);
}

#[test]
fn collect_frequencies_zrl() {
    let mut block = [0i16; 64];
    block[0] = 0;
    block[17] = 5;
    let (_, ac_freq) = collect_frequencies(&[block]);
    assert_eq!(ac_freq.counts[0xF0], 1);
}

#[test]
fn collect_frequencies_run_size_composite() {
    let mut block = [0i16; 64];
    block[0] = 0;
    block[1] = 0;
    block[2] = 3;
    let (_, ac_freq) = collect_frequencies(&[block]);
    assert_eq!(ac_freq.counts[0x12], 1);
}

#[test]
fn collect_frequencies_no_eob_when_last_is_nonzero() {
    let mut block = [0i16; 64];
    block[63] = 1;
    let (dc_freq, ac_freq) = collect_frequencies(&[block]);
    assert_eq!(dc_freq.counts[0], 1);
    assert_eq!(ac_freq.counts[0x00], 0);
    // 62 zeros: three ZRLs, then run 14 of category 1.
    assert_eq!(ac_freq.counts[0xF0], 3);
    assert_eq!(ac_freq.counts[0xE1], 1);
}

#[test]
fn dc_frequencies_default() {
    let freq = DcFrequencies::default();
    assert_eq!(freq.counts, [0u32; MAX_DC_CATEGORIES]);
}

#[test]
fn ac_frequencies_default() {
    let freq = AcFrequencies::default();
    assert_eq!(freq.counts, [0u32; 256]);
}

#[test]
fn frequency_counters_record() {
    let mut dc = DcFrequencies::new();
    dc.record(-3);
    dc.record(3);
    assert_eq!(dc.counts[2], 2);
    let mut ac = AcFrequencies::new();
    ac.record_coefficient(2, -1);
    ac.record_eob();
    ac.record_zrl();
    assert_eq!((ac.counts[0x21], ac.counts[0x00], ac.counts[0xF0]), (1, 1, 1));
}

#[test]
fn build_table_very_skewed_frequencies() {
    let mut freq = [0u32; 256];
    freq[0] = 1_000_000;
    for count in freq.iter_mut().skip(1) {
        *count = 1;
    }
    let table = build_table(&freq, 255);
    for i in 0..256 {
        assert!(table.ehufsi[i] <= 16, "symbol {} has code length {} > 16", i, table.ehufsi[i]);
    }
}

#[test]
fn build_table_two_symbols() {
    let freq = [50u32, 100];
    let table = build_table(&freq, 1);
    assert!(table.ehufsi[0] > 0);
    assert!(table.ehufsi[1] > 0);
    assert!(table.ehufsi[1] <= table.ehufsi[0]);
}

#[test]
fn build_table_ignores_symbols_beyond_max() {
    let freq = [0u32, 7, 0, 9];
    let table = build_table(&freq, 2);
    assert_eq!(table.values, vec![1]);
    assert_eq!(table.ehufsi[3], 0);
}

#[test]
fn built_codes_are_prefix_free() {
    let tables = [
        build_table(&[5u32, 10, 15, 20, 25, 30, 35, 40], 7),
        build_table(&[1000u32, 1, 1, 1, 2, 3, 5, 8, 13, 21], 9),
        build_table(&[1u32; 256], 255),
    ];
    for table in &tables {
        let coded: Vec<usize> = (0..256).filter(|&s| table.ehufsi[s] > 0).collect();
        for &a in &coded {
            let la = table.ehufsi[a] as u32;
            assert!(table.ehufco[a] < (1u32 << la));
            for &b in &coded {
                let lb = table.ehufsi[b] as u32;
                if a != b && la <= lb {
                    assert_ne!(table.ehufco[b] >> (lb - la), table.ehufco[a], "{} is a prefix of {}", a, b);
                }
            }
        }
    }
}

#[test]
fn build_table_fibonacci_counts_keep_the_reserved_code_point() {
    // Counts that make the Huffman tree 18 levels deep: the codes are
    // limited to 16 bits, every symbol keeps a code, and the all-ones code
    // point of the longest length stays unused.
    let mut freq = [0u32; 18];
    let (mut a, mut b) = (1u32, 1u32);
    for count in freq.iter_mut() {
        *count = a;
        let next = a + b;
        a = b;
        b = next;
    }
    let table = build_table(&freq, 17);
    let total: u32 = table.bits.iter().map(|&n| n as u32).sum();
    assert_eq!(total, 18);
    assert_eq!(table.values.len(), 18);
    let mut kraft = 0u32;
    for (i, &n) in table.bits.iter().enumerate() {
        kraft += (n as u32) << (15 - i);
    }
    assert!(kraft < 1 << 16);
    for s in 0..18 {
        let size = table.ehufsi[s] as u32;
        assert!((1..=16).contains(&size), "symbol {} has code length {}", s, size);
        assert_ne!(table.ehufco[s], (1u32 << size) - 1, "symbol {} has an all-ones code", s);
    }
}

#[test]
fn build_table_codes_every_used_symbol() {
    // 162 used AC symbols with uneven counts: each one gets a code.
    let mut freq = [0u32; 256];
    let mut seed = 99u32;
    for (s, count) in freq.iter_mut().enumerate() {
        if s % 16 != 0 || s == 0 || s == 0xF0 {
            seed = seed.wrapping_mul(1_103_515_245).wrapping_add(12345);
            *count = 1 + (seed >> 20);
        }
    }
    let used: Vec<usize> = (0..256).filter(|&s| freq[s] > 0).collect();
    let table = build_table(&freq, 255);
    assert_eq!(table.values.len(), used.len());
    for &s in &used {
        assert!((1..=16).contains(&table.ehufsi[s]), "symbol {} has no code", s);
        let size = table.ehufsi[s] as u32;
        assert_ne!(table.ehufco[s], (1u32 << size) - 1);
    }
}
