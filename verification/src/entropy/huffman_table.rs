//! Huffman tables: symbol statistics, table construction from statistics
//! (T.81 §K.2) and the encoder lookup tables (T.81 Annex C).
use vstd::arithmetic::div_mod::*;
use vstd::arithmetic::mul::*;
use vstd::arithmetic::power2::*;
use vstd::prelude::*;
use vstd::relations::{sorted_by, total_ordering};
use vstd::seq_lib::lemma_sorted_unique;

use crate::bitstream::{bits_of, lemma_bits_of_len, lemma_bits_of_split, lemma_value_of_bits};
use crate::entropy::symbols::{
    ac_tokens, bit_length, block_tokens, coef_token, count_symbol, counts_fit, dc_diffs_fit,
    dc_token, eob_token, lemma_bit_length_bound, lemma_count_prefix, lemma_count_push,
    lemma_stream_count_prefix, next_prediction, spec_category, stream_tokens, zrl_token, zrls,
    Token,
};

verus! {

/// A Huffman table for encoding.
///
/// `bits` and `values` are the BITS and HUFFVAL lists written into a DHT
/// segment; `ehufco` and `ehufsi` give, for each symbol, its code and code
/// length (0 when the symbol has no code).
#[derive(Debug, Clone)]
pub struct HuffmanTable {
    /// `bits[i]` = number of codes of length `i + 1`.
    pub bits: [u8; 16],
    /// Symbols in order of increasing code length.
    pub values: Vec<u8>,
    /// `ehufco[symbol]` = Huffman code of `symbol`.
    pub ehufco: [u32; 256],
    /// `ehufsi[symbol]` = code length of `symbol`, 0 when it has no code.
    pub ehufsi: [u8; 256],
}

/// Number of DC difference categories that are counted.
pub const MAX_DC_CATEGORIES: usize = 16;

/// Frequency counter for DC difference categories.
pub struct DcFrequencies {
    /// `counts[ssss]` = number of times category `ssss` was observed.
    pub counts: [u32; 16],
}

impl Default for DcFrequencies {
    fn default() -> (r: Self)
        ensures
            forall|i: int| 0 <= i < 16 ==> r.counts@[i] == 0,
    {
        Self::new()
    }
}

impl DcFrequencies {
    /// All counts zero.
    pub fn new() -> (r: Self)
        ensures
            forall|i: int| 0 <= i < 16 ==> r.counts@[i] == 0,
    {
        DcFrequencies { counts: [0u32; 16] }
    }

    /// Count one DC difference: the count of its category grows by one.
    pub fn record(&mut self, diff: i16)
        requires
            old(self).counts@[spec_category(diff) as int] < u32::MAX,
        ensures
            forall|i: int|
                0 <= i < 16 ==> final(self).counts@[i] == old(self).counts@[i] + if i
                    == spec_category(diff) {
                    1int
                } else {
                    0int
                },
    {
        let ssss = category(diff) as usize;
        self.counts[ssss] = self.counts[ssss] + 1;
    }
}

/// Frequency counter for AC run/size symbols.
pub struct AcFrequencies {
    /// `counts[rs]` = number of times symbol `rs` was observed.
    pub counts: [u32; 256],
}

impl Default for AcFrequencies {
    fn default() -> (r: Self)
        ensures
            forall|i: int| 0 <= i < 256 ==> r.counts@[i] == 0,
    {
        Self::new()
    }
}

impl AcFrequencies {
    /// All counts zero.
    pub fn new() -> (r: Self)
        ensures
            forall|i: int| 0 <= i < 256 ==> r.counts@[i] == 0,
    {
        AcFrequencies { counts: [0u32; 256] }
    }

    /// Count a non-zero coefficient preceded by `run` zeros: the count of
    /// symbol RRRRSSSS grows by one.
    pub fn record_coefficient(&mut self, run: u8, value: i16)
        requires
            run <= 15,
            old(self).counts@[(run * 16 + spec_category(value)) as int] < u32::MAX,
        ensures
            forall|i: int|
                0 <= i < 256 ==> final(self).counts@[i] == old(self).counts@[i] + if i == run
                    * 16 + spec_category(value) {
                    1int
                } else {
                    0int
                },
    {
        let ssss = category(value);
        let rs = ((run as u16) << 4) | (ssss as u16);
        proof {
            assert(((run as u16) << 4) | (ssss as u16) == run as u16 * 16 + ssss as u16)
                by (bit_vector)
                requires
                    run <= 15,
                    ssss <= 15,
            ;
        }
        self.counts[rs as usize] = self.counts[rs as usize] + 1;
    }

    /// Count an end-of-block symbol (0x00).
    pub fn record_eob(&mut self)
        requires
            old(self).counts@[0] < u32::MAX,
        ensures
            forall|i: int|
                0 <= i < 256 ==> final(self).counts@[i] == old(self).counts@[i] + if i == 0 {
                    1int
                } else {
                    0int
                },
    {
        self.counts[0x00] = self.counts[0x00] + 1;
    }

    /// Count a zero-run-length symbol (0xF0).
    pub fn record_zrl(&mut self)
        requires
            old(self).counts@[0xF0] < u32::MAX,
        ensures
            forall|i: int|
                0 <= i < 256 ==> final(self).counts@[i] == old(self).counts@[i] + if i == 0xF0 {
                    1int
                } else {
                    0int
                },
    {
        self.counts[0xF0] = self.counts[0xF0] + 1;
    }
}

/// The SSSS category of a value: the number of bits of its magnitude,
/// limited to 15 (T.81 Tables F.1, F.2).
pub fn category(value: i16) -> (r: u8)
    ensures
        r == spec_category(value),
        r <= 15,
{
    if value == 0 {
        return 0;
    }
    let mag: u16 = if value < 0 {
        (0i32 - value as i32) as u16
    } else {
        value as u16
    };
    proof {
        lemma_bit_length_bound(mag as nat);
        if bit_length(mag as nat) > 16 {
            lemma2_to64();
            lemma_pow2_strictly_increases(16, (bit_length(mag as nat) - 1) as nat);
        }
    }
    let mut a: u16 = mag;
    let mut bits: u8 = 0;
    while a > 0
        invariant
            bits + bit_length(a as nat) == bit_length(mag as nat),
            bit_length(mag as nat) <= 16,
        decreases a,
    {
        a = a / 2;
        bits = bits + 1;
    }
    if bits > 15 {
        15
    } else {
        bits
    }
}

/// The counts of the symbols of `toks` are those of the counters.
pub open spec fn counts_match(
    dc: DcFrequencies,
    acf: AcFrequencies,
    toks: Seq<Token>,
) -> bool {
    &&& forall|s: u8| s < 16 ==> dc.counts@[s as int] == #[trigger] count_symbol(toks, false, s)
    &&& forall|s: u8| #[trigger] count_symbol(toks, true, s) == acf.counts@[s as int]
    &&& forall|s: u8| s >= 16 ==> #[trigger] count_symbol(toks, false, s) == 0
}

/// Collect DC and AC symbol frequencies from quantized blocks in zig-zag
/// order, the first DC being predicted by 0.
///
/// The counts are exactly the occurrences of each symbol in the token
/// stream of the blocks, which the encoder writes for the same blocks.
pub fn collect_frequencies(blocks: &[[i16; 64]]) -> (r: (DcFrequencies, AcFrequencies))
    requires
        dc_diffs_fit(blocks@, 0),
        counts_fit(blocks@, 0),
    ensures
        counts_match(r.0, r.1, stream_tokens(blocks@, 0)),
{
    let mut dc_freq = DcFrequencies::new();
    let mut ac_freq = AcFrequencies::new();
    let mut prev_dc: i16 = 0;
    let ghost full = stream_tokens(blocks@, 0);
    let ghost mut toks: Seq<Token> = Seq::empty();
    let mut b: usize = 0;
    assert(blocks@.take(0) =~= Seq::<[i16; 64]>::empty());
    while b < blocks.len()
        invariant
            b <= blocks.len(),
            full == stream_tokens(blocks@, 0),
            dc_diffs_fit(blocks@, 0),
            counts_fit(blocks@, 0),
            toks == stream_tokens(blocks@.take(b as int), 0),
            prev_dc == next_prediction(blocks@.take(b as int), 0),
            counts_match(dc_freq, ac_freq, toks),
        decreases blocks.len() - b,
    {
        let block = &blocks[b];
        let ghost t1 = blocks@.take(b + 1);
        proof {
            assert(t1.drop_last() =~= blocks@.take(b as int));
            lemma_diffs_fit_prefix(blocks@, b + 1, 0);
        }
        let ghost block_toks = block_tokens(block@, prev_dc);
        let ghost next = stream_tokens(t1, 0);
        assert(next == toks + block_toks);
        let ghost ac = block@.subrange(1, 64);
        let dc = block[0];
        let diff = dc - prev_dc;
        proof {
            assert forall|a: bool, s: u8| #[trigger] count_symbol(next, a, s) <= u32::MAX by {
                lemma_stream_count_prefix(blocks@, b + 1, 0, a, s);
            }
            lemma_count_push(toks, dc_token(diff), false, spec_category(diff));
            lemma_count_prefix(toks.push(dc_token(diff)), ac_tokens(ac, 0, 0), false, spec_category(diff));
            assert(toks.push(dc_token(diff)) + ac_tokens(ac, 0, 0) =~= next);
        }
        prev_dc = dc;
        dc_freq.record(diff);
        proof {
            assert forall|a: bool, s: u8| #[trigger] count_symbol(toks.push(dc_token(diff)), a, s) == count_symbol(toks, a, s) + if a == false && s == spec_category(diff) { 1nat } else { 0nat } by {
                lemma_count_push(toks, dc_token(diff), a, s);
            }
            toks = toks.push(dc_token(diff));
        }
        let mut zero_run: u8 = 0;
        let mut k: usize = 1;
        while k < 64
            invariant
                1 <= k <= 64,
                zero_run < k,
                ac == block@.subrange(1, 64),
                toks + ac_tokens(ac, (k - 1) as nat, zero_run as nat) == next,
                forall|a: bool, s: u8| #[trigger] count_symbol(next, a, s) <= u32::MAX,
                counts_match(dc_freq, ac_freq, toks),
            decreases 64 - k,
        {
            let coeff = block[k];
            assert(coeff == ac[k - 1]);
            if coeff == 0 {
                zero_run = zero_run + 1;
            } else {
                let ghost rest = seq![coef_token((zero_run % 16) as nat, coeff)] + ac_tokens(ac, k as nat, 0);
                assert(ac_tokens(ac, (k - 1) as nat, zero_run as nat) == zrls(zero_run as nat) + rest);
                while zero_run > 15
                    invariant
                        toks + zrls(zero_run as nat) + rest == next,
                        rest == seq![coef_token((zero_run % 16) as nat, coeff)] + ac_tokens(ac, k as nat, 0),
                        forall|a: bool, s: u8| #[trigger] count_symbol(next, a, s) <= u32::MAX,
                        counts_match(dc_freq, ac_freq, toks),
                    decreases zero_run,
                {
                    proof {
                        let z = zrls(zero_run as nat);
                        let z2 = zrls((zero_run - 16) as nat);
                        assert(z =~= seq![zrl_token()] + z2);
                        assert(toks + z + rest =~= toks.push(zrl_token()) + (z2 + rest));
                        lemma_count_prefix(toks.push(zrl_token()), z2 + rest, true, 0xF0);
                        lemma_count_push(toks, zrl_token(), true, 0xF0);
                    }
                    ac_freq.record_zrl();
                    proof {
                        assert forall|a: bool, s: u8| #[trigger] count_symbol(toks.push(zrl_token()), a, s) == count_symbol(toks, a, s) + if a == true && s == 0xF0 { 1nat } else { 0nat } by {
                            lemma_count_push(toks, zrl_token(), a, s);
                        }
                        toks = toks.push(zrl_token());
                        assert(zrls((zero_run - 16) as nat) =~= zrls(zero_run as nat).skip(1));
                        assert(((zero_run - 16) as nat) % 16 == (zero_run as nat) % 16);
                    }
                    zero_run = zero_run - 16;
                }
                let ghost t = coef_token(zero_run as nat, coeff);
                proof {
                    assert(zrls(zero_run as nat) =~= Seq::<Token>::empty());
                    assert(toks + zrls(zero_run as nat) + rest =~= toks.push(t) + ac_tokens(ac, k as nat, 0));
                    lemma_count_prefix(toks.push(t), ac_tokens(ac, k as nat, 0), true, t.symbol);
                    lemma_count_push(toks, t, true, t.symbol);
                }
                ac_freq.record_coefficient(zero_run, coeff);
                proof {
                    assert forall|a: bool, s: u8| #[trigger] count_symbol(toks.push(t), a, s) == count_symbol(toks, a, s) + if a == true && s == t.symbol { 1nat } else { 0nat } by {
                        lemma_count_push(toks, t, a, s);
                    }
                    toks = toks.push(t);
                }
                zero_run = 0;
            }
            k = k + 1;
        }
        if zero_run > 0 {
            proof {
                assert(ac_tokens(ac, 63, zero_run as nat) == seq![eob_token()]);
                assert(toks + seq![eob_token()] =~= toks.push(eob_token()));
                lemma_count_prefix(toks.push(eob_token()), Seq::empty(), true, 0);
                assert(toks.push(eob_token()) + Seq::<Token>::empty() =~= toks.push(eob_token()));
                lemma_count_push(toks, eob_token(), true, 0);
            }
            ac_freq.record_eob();
            proof {
                assert forall|a: bool, s: u8| #[trigger] count_symbol(toks.push(eob_token()), a, s) == count_symbol(toks, a, s) + if a == true && s == 0 { 1nat } else { 0nat } by {
                    lemma_count_push(toks, eob_token(), a, s);
                }
                toks = toks.push(eob_token());
            }
        } else {
            proof {
                assert(toks + Seq::<Token>::empty() =~= toks);
            }
        }
        b = b + 1;
    }
    proof {
        assert(blocks@.take(blocks.len() as int) =~= blocks@);
    }
    (dc_freq, ac_freq)
}

/// The code lengths listed by BITS for lengths 1..=`n`, in increasing
/// order: `bits[i]` entries equal to `i + 1` (T.81 Figure C.1, HUFFSIZE).
pub open spec fn huffsizes(bits: Seq<u8>, n: nat) -> Seq<u8>
    decreases n,
{
    if n == 0 {
        Seq::empty()
    } else {
        huffsizes(bits, (n - 1) as nat) + Seq::new(bits[n - 1] as nat, |j: int| n as u8)
    }
}

/// The canonical codes for code lengths `sizes` (T.81 Figure C.2,
/// HUFFCODE): the first code is 0; each next code is the previous plus one,
/// shifted left by the growth of the length.
pub open spec fn canonical_codes(sizes: Seq<u8>) -> Seq<nat>
    decreases sizes.len(),
{
    if sizes.len() == 0 {
        Seq::empty()
    } else if sizes.len() == 1 {
        seq![0nat]
    } else {
        let prev = canonical_codes(sizes.drop_last());
        prev.push(
            ((prev.last() + 1) * pow2((sizes.last() - sizes[sizes.len() - 2]) as nat)) as nat,
        )
    }
}

/// EHUFCO and EHUFSI after recording the first `n` symbols of `vals` with
/// the codes `codes` and lengths `sizes` (T.81 Figure C.3); symbols never
/// recorded keep code 0 and length 0.
pub open spec fn code_tables(codes: Seq<nat>, sizes: Seq<u8>, vals: Seq<u8>, n: nat) -> (
    Seq<u32>,
    Seq<u8>,
)
    decreases n,
{
    if n == 0 {
        (Seq::new(256, |i: int| 0u32), Seq::new(256, |i: int| 0u8))
    } else {
        let (co, si) = code_tables(codes, sizes, vals, (n - 1) as nat);
        (
            co.update(vals[n - 1] as int, codes[n - 1] as u32),
            si.update(vals[n - 1] as int, sizes[n - 1]),
        )
    }
}

/// The encoder tables derived from BITS and HUFFVAL: each listed symbol
/// gets the canonical code of its position (T.81 Annex C).
pub open spec fn canonical_tables(bits: Seq<u8>, values: Seq<u8>) -> (Seq<u32>, Seq<u8>) {
    let sizes = huffsizes(bits, 16);
    let n = if sizes.len() < values.len() {
        sizes.len()
    } else {
        values.len()
    };
    code_tables(canonical_codes(sizes), sizes, values, n)
}

/// The table's EHUFCO/EHUFSI are those a decoder derives from its BITS and
/// HUFFVAL lists.
pub open spec fn table_consistent(t: HuffmanTable) -> bool {
    (t.ehufco@, t.ehufsi@) == canonical_tables(t.bits@, t.values@)
}

proof fn lemma_huffsizes_props(bits: Seq<u8>, n: nat)
    requires
        n <= bits.len(),
        n <= 16,
    ensures
        forall|k: int|
            0 <= k < huffsizes(bits, n).len() ==> 1 <= #[trigger] huffsizes(bits, n)[k] <= n,
        forall|a: int, b: int|
            0 <= a <= b < huffsizes(bits, n).len() ==> huffsizes(bits, n)[a] <= huffsizes(
                bits,
                n,
            )[b],
        huffsizes(bits, n).len() <= 255 * n,
    decreases n,
{
    if n > 0 {
        lemma_huffsizes_props(bits, (n - 1) as nat);
        let h = huffsizes(bits, (n - 1) as nat);
        let t = Seq::new(bits[n - 1] as nat, |j: int| n as u8);
        assert forall|k: int| 0 <= k < (h + t).len() implies 1 <= #[trigger] (h + t)[k] <= n by {
            if k >= h.len() {
                assert((h + t)[k] == t[k - h.len()]);
                assert(t[k - h.len()] == n as u8);
            }
        }
        assert forall|a: int, b: int| 0 <= a <= b < (h + t).len() implies (h + t)[a] <= (h + t)[b] by {
            if b >= h.len() {
                assert((h + t)[b] == t[b - h.len()]);
                assert(t[b - h.len()] == n as u8);
                if a >= h.len() {
                    assert((h + t)[a] == t[a - h.len()]);
                }
            }
        }
    }
}

proof fn lemma_code_tables_sizes(codes: Seq<nat>, sizes: Seq<u8>, vals: Seq<u8>, n: nat)
    requires
        n <= sizes.len(),
        n <= vals.len(),
        forall|k: int| 0 <= k < sizes.len() ==> #[trigger] sizes[k] <= 16,
    ensures
        code_tables(codes, sizes, vals, n).0.len() == 256,
        code_tables(codes, sizes, vals, n).1.len() == 256,
        forall|s: int| 0 <= s < 256 ==> #[trigger] code_tables(codes, sizes, vals, n).1[s] <= 16,
    decreases n,
{
    if n > 0 {
        lemma_code_tables_sizes(codes, sizes, vals, (n - 1) as nat);
    }
}

/// Every code length of a consistent table is at most 16 bits.
pub proof fn lemma_consistent_code_lengths(t: HuffmanTable)
    requires
        table_consistent(t),
    ensures
        forall|s: int| 0 <= s < 256 ==> #[trigger] t.ehufsi@[s] <= 16,
{
    let sizes = huffsizes(t.bits@, 16);
    lemma_huffsizes_props(t.bits@, 16);
    let n = if sizes.len() < t.values@.len() {
        sizes.len()
    } else {
        t.values@.len()
    };
    lemma_code_tables_sizes(canonical_codes(sizes), sizes, t.values@, n);
}

proof fn lemma_code_tables_len(codes: Seq<nat>, sizes: Seq<u8>, vals: Seq<u8>, n: nat)
    ensures
        code_tables(codes, sizes, vals, n).0.len() == 256,
        code_tables(codes, sizes, vals, n).1.len() == 256,
    decreases n,
{
    if n > 0 {
        lemma_code_tables_len(codes, sizes, vals, (n - 1) as nat);
    }
}

/// A symbol with a non-zero code length is one of the recorded values.
proof fn lemma_code_tables_listed(codes: Seq<nat>, sizes: Seq<u8>, vals: Seq<u8>, n: nat, s: int)
    requires
        n <= vals.len(),
        0 <= s < 256,
        code_tables(codes, sizes, vals, n).1[s] != 0,
    ensures
        exists|k: int| 0 <= k < n && vals[k] == s,
    decreases n,
{
    if n > 0 {
        lemma_code_tables_len(codes, sizes, vals, (n - 1) as nat);
        if vals[n - 1] as int == s {
            assert(vals[n - 1] == s);
        } else {
            lemma_code_tables_listed(codes, sizes, vals, (n - 1) as nat, s);
        }
    }
}

/// Each recorded value gets a non-zero code length when every recorded
/// length is non-zero.
proof fn lemma_code_tables_cover(codes: Seq<nat>, sizes: Seq<u8>, vals: Seq<u8>, n: nat, k: int)
    requires
        n <= vals.len(),
        n <= sizes.len(),
        0 <= k < n,
        forall|j: int| 0 <= j < n ==> #[trigger] sizes[j] >= 1,
    ensures
        code_tables(codes, sizes, vals, n).1[vals[k] as int] >= 1,
    decreases n,
{
    lemma_code_tables_len(codes, sizes, vals, (n - 1) as nat);
    if k < n - 1 {
        lemma_code_tables_cover(codes, sizes, vals, (n - 1) as nat, k);
    }
}

/// In a consistent table only the listed values have codes.
proof fn lemma_coded_symbols_listed(t: HuffmanTable, s: int)
    requires
        table_consistent(t),
        0 <= s < 256,
        t.ehufsi@[s] != 0,
    ensures
        exists|k: int| 0 <= k < t.values@.len() && t.values@[k] == s,
{
    let sizes = huffsizes(t.bits@, 16);
    let n = if sizes.len() < t.values@.len() {
        sizes.len()
    } else {
        t.values@.len()
    };
    lemma_code_tables_listed(canonical_codes(sizes), sizes, t.values@, n, s);
}

/// In a consistent table whose BITS list at least as many codes as it has
/// values, every listed value has a code.
proof fn lemma_listed_symbols_coded(t: HuffmanTable, k: int)
    requires
        table_consistent(t),
        t.values@.len() <= huffsizes(t.bits@, 16).len(),
        0 <= k < t.values@.len(),
    ensures
        t.ehufsi@[t.values@[k] as int] >= 1,
{
    let sizes = huffsizes(t.bits@, 16);
    lemma_huffsizes_props(t.bits@, 16);
    lemma_code_tables_cover(canonical_codes(sizes), sizes, t.values@, t.values@.len(), k);
}

/// The number of lengths BITS lists is the sum of its counts.
proof fn lemma_huffsizes_len(bits8: Seq<u8>, bits: Seq<u32>, n: nat)
    requires
        n <= bits8.len(),
        n + 1 <= bits.len(),
        forall|i: int| 0 <= i < n ==> bits8[i] as int == #[trigger] bits[i + 1] as int,
    ensures
        huffsizes(bits8, n).len() == sum_range(bits, 1, n as int + 1),
    decreases n,
{
    if n > 0 {
        lemma_huffsizes_len(bits8, bits, (n - 1) as nat);
        assert(bits8[n - 1] as int == bits[n as int]);
    }
}

proof fn lemma_canonical_len(s: Seq<u8>)
    ensures
        canonical_codes(s).len() == s.len(),
    decreases s.len(),
{
    if s.len() > 1 {
        lemma_canonical_len(s.drop_last());
    }
}

proof fn lemma_canonical_prefix(s: Seq<u8>, m: int)
    requires
        0 <= m <= s.len(),
    ensures
        canonical_codes(s.take(m)) == canonical_codes(s).take(m),
    decreases s.len(),
{
    lemma_canonical_len(s);
    if m == s.len() {
        assert(s.take(m) =~= s);
        assert(canonical_codes(s).take(m) =~= canonical_codes(s));
    } else {
        assert(s.take(m) =~= s.drop_last().take(m));
        lemma_canonical_prefix(s.drop_last(), m);
        lemma_canonical_len(s.drop_last());
        if s.len() == 1 {
            assert(canonical_codes(s.take(m)) =~= canonical_codes(s).take(m));
        } else {
            assert(canonical_codes(s).take(m) =~= canonical_codes(s.drop_last()).take(m));
        }
    }
}

proof fn lemma_pow2_le(a: nat, b: nat)
    requires
        a <= b,
    ensures
        pow2(a) <= pow2(b),
{
    if a < b {
        lemma_pow2_strictly_increases(a, b);
    }
}

/// The Kraft sum of code lengths 1..=16, scaled by 2^16: the sum of
/// 2^(16 - length) over the lengths.
pub open spec fn kraft(sizes: Seq<u8>) -> nat
    decreases sizes.len(),
{
    if sizes.len() == 0 {
        0
    } else {
        kraft(sizes.drop_last()) + pow2((16 - sizes.last()) as nat)
    }
}

proof fn lemma_kraft_prefix(s: Seq<u8>, a: int, b: int)
    requires
        0 <= a <= b <= s.len(),
    ensures
        kraft(s.take(a)) <= kraft(s.take(b)),
    decreases b - a,
{
    if a < b {
        lemma_kraft_prefix(s, a, b - 1);
        assert(s.take(b).drop_last() =~= s.take(b - 1));
    }
}

/// Canonical code k, shifted to 16 bits, is the Kraft sum of the lengths
/// before it.
proof fn lemma_canonical_offsets(s: Seq<u8>, k: int)
    requires
        0 <= k < s.len(),
        forall|i: int| 0 <= i < s.len() ==> 1 <= #[trigger] s[i] <= 16,
        forall|a: int, b: int| 0 <= a <= b < s.len() ==> s[a] <= s[b],
    ensures
        canonical_codes(s)[k] * pow2((16 - s[k]) as nat) == kraft(s.take(k)),
    decreases s.len(),
{
    lemma_canonical_len(s);
    if s.len() == 1 {
        assert(s.take(0) =~= Seq::<u8>::empty());
        assert(canonical_codes(s)[0] == 0);
        assert(kraft(s.take(0)) == 0);
        lemma_mul_basics(pow2((16 - s[0]) as nat) as int);
    } else {
        let d = s.drop_last();
        lemma_canonical_len(d);
        let prev = canonical_codes(d);
        if k < s.len() - 1 {
            lemma_canonical_offsets(d, k);
            assert(canonical_codes(s)[k] == prev[k]);
            assert(d[k] == s[k]);
            assert(d.take(k) =~= s.take(k));
        } else {
            lemma_canonical_offsets(d, k - 1);
            assert(d.take(k - 1) =~= s.take(k - 1));
            assert(s.take(k).drop_last() =~= s.take(k - 1));
            assert(s.take(k).last() == s[k - 1]);
            let c = prev[k - 1];
            let g = (s[k] - s[k - 1]) as nat;
            let e = (16 - s[k]) as nat;
            assert(canonical_codes(s)[k] == ((c + 1) * pow2(g)) as nat);
            let f = (16 - s[k - 1]) as nat;
            assert(d[k - 1] == s[k - 1]);
            assert(c * pow2(f) == kraft(s.take(k - 1)));
            assert(kraft(s.take(k)) == kraft(s.take(k - 1)) + pow2(f));
            lemma_pow2_adds(g, e);
            assert(g + e == f);
            lemma_mul_is_associative((c + 1) as int, pow2(g) as int, pow2(e) as int);
            lemma_mul_is_distributive_add_other_way(pow2(f) as int, c as int, 1);
            assert((c + 1) * pow2(g) * pow2(e) == (c + 1) * pow2(f));
            assert((c + 1) * pow2(f) == c * pow2(f) + pow2(f));
            lemma_mul_nonnegative((c + 1) as int, pow2(g) as int);
            assert(canonical_codes(s)[k] == (c + 1) * pow2(g));
            assert(canonical_codes(s)[k] * pow2(e) == kraft(s.take(k)));
        }
    }
}

/// Code lengths as HUFFSIZE lists them: 1..=16, in increasing order.
pub open spec fn sizes_ordered(s: Seq<u8>) -> bool {
    &&& forall|i: int| 0 <= i < s.len() ==> 1 <= #[trigger] s[i] <= 16
    &&& forall|a: int, b: int| 0 <= a <= b < s.len() ==> s[a] <= s[b]
}

/// Under the Kraft inequality every canonical code fits its length.
proof fn lemma_canonical_fits(s: Seq<u8>, k: int)
    requires
        0 <= k < s.len(),
        sizes_ordered(s),
        kraft(s) <= pow2(16),
    ensures
        canonical_codes(s)[k] < pow2(s[k] as nat),
{
    lemma_canonical_offsets(s, k);
    lemma_kraft_prefix(s, k + 1, s.len() as int);
    assert(s.take(s.len() as int) =~= s);
    assert(s.take(k + 1).drop_last() =~= s.take(k));
    let c = canonical_codes(s)[k];
    let p = pow2((16 - s[k]) as nat);
    lemma_pow2_pos((16 - s[k]) as nat);
    lemma_pow2_adds(s[k] as nat, (16 - s[k]) as nat);
    lemma_mul_is_distributive_add_other_way(p as int, c as int, 1);
    lemma_mul_inequality_converse((c + 1) as int, pow2(s[k] as nat) as int, p as int);
}

/// Under the strict Kraft inequality no canonical code is all 1-bits.
proof fn lemma_canonical_not_all_ones(s: Seq<u8>, k: int)
    requires
        0 <= k < s.len(),
        sizes_ordered(s),
        kraft(s) < pow2(16),
    ensures
        canonical_codes(s)[k] + 1 < pow2(s[k] as nat),
{
    lemma_canonical_offsets(s, k);
    lemma_kraft_prefix(s, k + 1, s.len() as int);
    assert(s.take(s.len() as int) =~= s);
    assert(s.take(k + 1).drop_last() =~= s.take(k));
    let c = canonical_codes(s)[k];
    let p = pow2((16 - s[k]) as nat);
    lemma_pow2_pos((16 - s[k]) as nat);
    lemma_pow2_adds(s[k] as nat, (16 - s[k]) as nat);
    lemma_mul_is_distributive_add_other_way(p as int, c as int, 1);
    lemma_mul_strict_inequality_converse((c + 1) as int, pow2(s[k] as nat) as int, p as int);
}

/// Under the Kraft inequality a later canonical code, cut to the length of
/// an earlier one, is larger than the earlier code.
proof fn lemma_canonical_order(s: Seq<u8>, a: int, b: int)
    requires
        0 <= a < b < s.len(),
        sizes_ordered(s),
        kraft(s) <= pow2(16),
    ensures
        canonical_codes(s)[b] / pow2((s[b] - s[a]) as nat) > canonical_codes(s)[a],
{
    lemma_canonical_offsets(s, a);
    lemma_canonical_offsets(s, b);
    lemma_kraft_prefix(s, a + 1, b);
    assert(s.take(a + 1).drop_last() =~= s.take(a));
    let ca = canonical_codes(s)[a];
    let cb = canonical_codes(s)[b];
    let g = (s[b] - s[a]) as nat;
    let eb = (16 - s[b]) as nat;
    let pa = pow2((16 - s[a]) as nat);
    let pb = pow2(eb);
    let gg = pow2(g);
    lemma_pow2_pos(eb);
    lemma_pow2_pos(g);
    lemma_pow2_adds(g, eb);
    assert(g + eb == (16 - s[a]) as nat);
    // cb * pb >= (ca + 1) * pa == (ca + 1) * gg * pb
    lemma_mul_is_distributive_add_other_way(pa as int, ca as int, 1);
    assert(cb * pb >= (ca + 1) * pa);
    lemma_mul_is_associative((ca + 1) as int, gg as int, pb as int);
    lemma_mul_inequality_converse(((ca + 1) * gg) as int, cb as int, pb as int);
    lemma_div_is_ordered(((ca + 1) * gg) as int, cb as int, gg as int);
    lemma_div_by_multiple((ca + 1) as int, gg as int);
}

/// With distinct values, the tables hold each recorded value's code and
/// length.
proof fn lemma_code_tables_entry(codes: Seq<nat>, sizes: Seq<u8>, vals: Seq<u8>, n: nat, k: int)
    requires
        n <= vals.len(),
        0 <= k < n,
        forall|i: int, j: int| 0 <= i < j < n ==> vals[i] != vals[j],
    ensures
        code_tables(codes, sizes, vals, n).0[vals[k] as int] == codes[k] as u32,
        code_tables(codes, sizes, vals, n).1[vals[k] as int] == sizes[k],
    decreases n,
{
    lemma_code_tables_len(codes, sizes, vals, (n - 1) as nat);
    if k < n - 1 {
        lemma_code_tables_entry(codes, sizes, vals, (n - 1) as nat, k);
        assert(vals[k] != vals[n - 1]);
    }
}

/// Two different bit strings of the same length give different values.
proof fn lemma_bits_differ(x: nat, y: nat, n: nat)
    requires
        x != y,
        x < pow2(n),
        y < pow2(n),
    ensures
        bits_of(x, n) != bits_of(y, n),
{
    lemma_value_of_bits(x, n);
    lemma_value_of_bits(y, n);
    lemma_small_mod(x, pow2(n));
    lemma_small_mod(y, pow2(n));
}

/// In a table whose BITS satisfy the Kraft inequality and whose HUFFVAL
/// lists each symbol at most once, every code fits its length and the code
/// of one symbol is never a prefix of the code of another (T.81 Annex C):
/// a decoder reads each code back without ambiguity.
pub proof fn lemma_codes_prefix_free(t: HuffmanTable, s1: int, s2: int)
    requires
        table_consistent(t),
        kraft(huffsizes(t.bits@, 16)) <= pow2(16),
        forall|i: int, j: int| 0 <= i < j < t.values@.len() ==> t.values@[i] != t.values@[j],
        0 <= s1 < 256,
        0 <= s2 < 256,
        s1 != s2,
        0 < t.ehufsi@[s1] <= t.ehufsi@[s2],
    ensures
        t.ehufco@[s1] < pow2(t.ehufsi@[s1] as nat),
        t.ehufco@[s2] < pow2(t.ehufsi@[s2] as nat),
        bits_of(t.ehufco@[s2] as nat, t.ehufsi@[s2] as nat).take(t.ehufsi@[s1] as int) != bits_of(
            t.ehufco@[s1] as nat,
            t.ehufsi@[s1] as nat,
        ),
{
    let sizes = huffsizes(t.bits@, 16);
    let codes = canonical_codes(sizes);
    lemma_huffsizes_props(t.bits@, 16);
    lemma_canonical_len(sizes);
    let n = if sizes.len() < t.values@.len() {
        sizes.len()
    } else {
        t.values@.len()
    };
    lemma_code_tables_listed(codes, sizes, t.values@, n, s1);
    lemma_code_tables_listed(codes, sizes, t.values@, n, s2);
    let k1 = choose|k: int| 0 <= k < n && t.values@[k] == s1;
    let k2 = choose|k: int| 0 <= k < n && t.values@[k] == s2;
    lemma_code_tables_entry(codes, sizes, t.values@, n, k1);
    lemma_code_tables_entry(codes, sizes, t.values@, n, k2);
    lemma_canonical_fits(sizes, k1);
    lemma_canonical_fits(sizes, k2);
    lemma_pow2_le(sizes[k1] as nat, 16);
    lemma_pow2_le(sizes[k2] as nat, 16);
    lemma2_to64();
    let c1 = codes[k1];
    let c2 = codes[k2];
    let n1 = sizes[k1] as nat;
    let n2 = sizes[k2] as nat;
    assert(t.ehufco@[s1] == c1 && t.ehufsi@[s1] == n1);
    assert(t.ehufco@[s2] == c2 && t.ehufsi@[s2] == n2);
    let m = (n2 - n1) as nat;
    lemma_bits_of_split(c2, n1, m);
    assert(n1 + m == n2);
    lemma_bits_of_len(c2 / pow2(m), n1);
    let front = bits_of(c2 / pow2(m), n1);
    assert(bits_of(c2, n2).take(n1 as int) =~= front);
    lemma_pow2_pos(m);
    if k1 < k2 {
        lemma_canonical_order(sizes, k1, k2);
        // c2 / 2^m < 2^n1 because c2 < 2^n2 = 2^n1 * 2^m
        lemma_pow2_adds(n1, m);
        lemma_div_is_ordered(c2 as int, (pow2(n1) * pow2(m) - 1) as int, pow2(m) as int);
        assert(c2 / pow2(m) < pow2(n1)) by {
            lemma_fundamental_div_mod(c2 as int, pow2(m) as int);
            lemma_mul_is_commutative(pow2(m) as int, (c2 / pow2(m)) as int);
            if c2 / pow2(m) >= pow2(n1) {
                lemma_mul_inequality(pow2(n1) as int, (c2 / pow2(m)) as int, pow2(m) as int);
            }
        }
        lemma_bits_differ(c2 / pow2(m), c1, n1);
    } else {
        assert(k2 < k1);
        assert(sizes[k2] <= sizes[k1]);
        lemma_canonical_order(sizes, k2, k1);
        assert(m == 0);
        assert(pow2(0) == 1);
        lemma_bits_differ(c2 / pow2(m), c1, n1);
    }
}

/// Generate EHUFCO and EHUFSI from BITS and HUFFVAL (T.81 Figures C.1, C.2
/// and C.3).
fn generate_encoder_tables(bits: &[u8; 16], huffval: &[u8]) -> (r: ([u32; 256], [u8; 256]))
    ensures
        (r.0@, r.1@) == canonical_tables(bits@, huffval@),
{
    let ghost sizes_spec = huffsizes(bits@, 16);
    let mut huffsize: Vec<u8> = Vec::new();
    let mut i: u8 = 0;
    while i < 16
        invariant
            i <= 16,
            huffsize@ == huffsizes(bits@, i as nat),
        decreases 16 - i,
    {
        let length = i + 1;
        let mut c: u8 = 0;
        let ghost base = huffsize@;
        while c < bits[i as usize]
            invariant
                c <= bits@[i as int],
                length == i + 1,
                i < 16,
                huffsize@ == base + Seq::new(c as nat, |j: int| length),
            decreases bits@[i as int] - c,
        {
            huffsize.push(length);
            c = c + 1;
            proof {
                assert(huffsize@ =~= base + Seq::new(c as nat, |j: int| length));
            }
        }
        proof {
            assert(huffsize@ =~= huffsizes(bits@, (i + 1) as nat));
        }
        i = i + 1;
    }
    let lastk = huffsize.len();
    proof {
        lemma_huffsizes_props(bits@, 16);
    }
    let ghost codes_spec = canonical_codes(huffsize@);
    let mut huffcode: Vec<u32> = Vec::new();
    if lastk > 0 {
        let mut code: u32 = 0;
        let mut si: u8 = huffsize[0];
        let mut k: usize = 0;
        while k < lastk
            invariant
                lastk == huffsize@.len(),
                lastk <= 255 * 16,
                0 < lastk,
                k <= lastk,
                huffsize@ == sizes_spec,
                forall|k: int| 0 <= k < sizes_spec.len() ==> 1 <= #[trigger] sizes_spec[k] <= 16,
                forall|a: int, b: int|
                    0 <= a <= b < sizes_spec.len() ==> sizes_spec[a] <= sizes_spec[b],
                huffcode@.len() == k,
                forall|j: int| 0 <= j < k ==> huffcode@[j] == canonical_codes(huffsize@.take(j + 1)).last(),
                si == if k == 0 { huffsize@[0] } else { huffsize@[k - 1] },
                k == 0 ==> code == 0,
                k > 0 ==> code == canonical_codes(huffsize@.take(k as int)).last() + 1,
                code <= k * pow2(si as nat),
            decreases lastk - k,
        {
            let ghost code0 = code;
            let ghost si0 = si;
            proof {
                lemma2_to64();
                assert(pow2((si - si0) as nat) == 1);
                lemma_mul_basics(code0 as int);
            }
            while huffsize[k] != si
                invariant
                    k < lastk == huffsize@.len(),
                    lastk <= 255 * 16,
                    si0 <= si <= huffsize@[k as int] <= 16,
                    code == code0 * pow2((si - si0) as nat),
                    code <= k * pow2(si as nat),
                decreases huffsize@[k as int] - si,
            {
                proof {
                    lemma_pow2_unfold((si + 1) as nat);
                    lemma_pow2_unfold((si - si0 + 1) as nat);
                    lemma_pow2_pos(si as nat);
                    lemma2_to64();
                    lemma_pow2_le(si as nat, 16);
                    lemma_mul_inequality(k as int, 4080, pow2(si as nat) as int);
                    lemma_mul_inequality(pow2(si as nat) as int, 65536, 4080);
                    lemma_mul_is_associative(code0 as int, pow2((si - si0) as nat) as int, 2);
                    lemma_mul_is_associative(k as int, pow2(si as nat) as int, 2);
                }
                proof {
                    assert(code * 2 <= u32::MAX);
                    vstd::bits::lemma_u32_shl_is_mul(code, 1);
                }
                code = code << 1;
                si = si + 1;
            }
            proof {
                let t = huffsize@.take(k + 1);
                assert(t.drop_last() =~= huffsize@.take(k as int));
                if k > 0 {
                    assert(t[k - 1] == huffsize@[k - 1]);
                } else {
                    assert(si == huffsize@[0]);
                    lemma2_to64();
                }
            }
            huffcode.push(code);
            proof {
                lemma_pow2_pos(si as nat);
                lemma_mul_is_distributive_add_other_way(pow2(si as nat) as int, k as int, 1);
                lemma_pow2_le(si as nat, 16);
                lemma2_to64();
                lemma_mul_inequality(k as int + 1, 4080, pow2(si as nat) as int);
            }
            code = code + 1;
            k = k + 1;
        }
        proof {
            assert(huffsize@.take(lastk as int) =~= huffsize@);
        }
    }
    proof {
        assert forall|j: int| 0 <= j < lastk implies huffcode@[j] == canonical_codes(huffsize@)[j] by {
            lemma_canonical_prefix(huffsize@, j + 1);
            lemma_canonical_len(huffsize@.take(j + 1));
            lemma_canonical_len(huffsize@);
        }
    }
    let mut ehufco = [0u32; 256];
    let mut ehufsi = [0u8; 256];
    proof {
        assert(ehufco@ =~= Seq::new(256, |i: int| 0u32));
        assert(ehufsi@ =~= Seq::new(256, |i: int| 0u8));
    }
    let n = if lastk < huffval.len() {
        lastk
    } else {
        huffval.len()
    };
    let mut k: usize = 0;
    while k < n
        invariant
            k <= n,
            n <= lastk,
            n <= huffval@.len(),
            lastk == huffsize@.len(),
            huffcode@.len() == lastk,
            forall|j: int| 0 <= j < lastk ==> huffcode@[j] == canonical_codes(huffsize@)[j],
            (ehufco@, ehufsi@) == code_tables(canonical_codes(huffsize@), huffsize@, huffval@, k as nat),
        decreases n - k,
    {
        let symbol = huffval[k] as usize;
        ehufco[symbol] = huffcode[k];
        ehufsi[symbol] = huffsize[k];
        k = k + 1;
    }
    (ehufco, ehufsi)
}

/// The table given to a stream without any symbol: a single 1-bit code for
/// symbol 0.
fn build_empty_table() -> (t: HuffmanTable)
    ensures
        table_consistent(t),
        t.values@ == seq![0u8],
        t.bits@ == Seq::new(16, |i: int| if i == 0 { 1u8 } else { 0u8 }),
{
    let mut bits = [0u8; 16];
    bits[0] = 1;
    let values = vec![0u8];
    let (ehufco, ehufsi) = generate_encoder_tables(&bits, values.as_slice());
    proof {
        assert(bits@ =~= Seq::new(16, |i: int| if i == 0 { 1u8 } else { 0u8 }));
    }
    HuffmanTable { bits, values, ehufco, ehufsi }
}

/// Symbol `sym` occurs among the first `n` entries of `freq`.
pub open spec fn occurs(freq: Seq<u32>, n: nat, sym: u8) -> bool {
    sym < n && sym < freq.len() && freq[sym as int] > 0
}

/// The symbols with a non-zero count among the first `n` entries of
/// `freq`, in increasing order, with their counts.
pub open spec fn nonzero_symbols(freq: Seq<u32>, n: nat) -> Seq<(u8, u32)>
    decreases n,
{
    if n == 0 {
        Seq::empty()
    } else if n - 1 < freq.len() && freq[n - 1] > 0 {
        nonzero_symbols(freq, (n - 1) as nat).push(((n - 1) as u8, freq[n - 1]))
    } else {
        nonzero_symbols(freq, (n - 1) as nat)
    }
}

/// Collect the symbols `0..=max_symbol` whose count is not zero.
fn collect_symbols(freq: &[u32], max_symbol: usize) -> (r: Vec<(u8, u32)>)
    requires
        max_symbol <= 255,
    ensures
        r@ == nonzero_symbols(freq@, (max_symbol + 1) as nat),
        r@.len() <= 256,
        forall|i: int| 0 <= i < r@.len() ==> occurs(freq@, (max_symbol + 1) as nat, #[trigger] r@[i].0),
        forall|i: int| 0 <= i < r@.len() ==> #[trigger] r@[i].1 > 0,
{
    let num_symbols = max_symbol + 1;
    let limit = if freq.len() < num_symbols {
        freq.len()
    } else {
        num_symbols
    };
    let mut symbols: Vec<(u8, u32)> = Vec::new();
    let mut i: usize = 0;
    while i < limit
        invariant
            i <= limit <= num_symbols <= 256,
            limit <= freq@.len(),
            symbols@ == nonzero_symbols(freq@, i as nat),
            symbols@.len() <= i,
            forall|k: int| 0 <= k < symbols@.len() ==> occurs(freq@, num_symbols as nat, #[trigger] symbols@[k].0),
            forall|k: int| 0 <= k < symbols@.len() ==> #[trigger] symbols@[k].1 > 0,
        decreases limit - i,
    {
        if freq[i] > 0 {
            symbols.push((i as u8, freq[i]));
        }
        i = i + 1;
    }
    proof {
        lemma_nonzero_symbols_stable(freq@, limit as nat, num_symbols as nat);
    }
    symbols
}

proof fn lemma_nonzero_symbols_stable(freq: Seq<u32>, a: nat, b: nat)
    requires
        a <= b,
        a == freq.len() || a == b,
    ensures
        nonzero_symbols(freq, a) == nonzero_symbols(freq, b),
    decreases b - a,
{
    if a < b {
        lemma_nonzero_symbols_stable(freq, a, (b - 1) as nat);
    }
}

/// Number of unused nodes among the first `n`.
pub open spec fn count_unused(used: Seq<bool>, n: nat) -> nat
    decreases n,
{
    if n == 0 {
        0
    } else {
        count_unused(used, (n - 1) as nat) + if !used[n - 1] {
            1nat
        } else {
            0nat
        }
    }
}

/// Total frequency of the unused nodes among the first `n`.
pub open spec fn sum_unused(freq: Seq<u64>, used: Seq<bool>, n: nat) -> nat
    decreases n,
{
    if n == 0 {
        0
    } else {
        sum_unused(freq, used, (n - 1) as nat) + if !used[n - 1] {
            freq[n - 1] as nat
        } else {
            0nat
        }
    }
}

proof fn lemma_unused_update(freq: Seq<u64>, used: Seq<bool>, n: nat, v: int)
    requires
        0 <= v < n <= used.len(),
        !used[v],
    ensures
        count_unused(used.update(v, true), n) + 1 == count_unused(used, n),
        sum_unused(freq, used.update(v, true), n) + freq[v] == sum_unused(freq, used, n),
    decreases n,
{
    if n - 1 > v {
        lemma_unused_update(freq, used, (n - 1) as nat, v);
    } else {
        lemma_unused_frame(freq, used, used.update(v, true), (n - 1) as nat);
    }
}

proof fn lemma_unused_frame(freq: Seq<u64>, used: Seq<bool>, used2: Seq<bool>, n: nat)
    requires
        n <= used.len(),
        n <= used2.len(),
        forall|i: int| 0 <= i < n ==> used[i] == used2[i],
    ensures
        count_unused(used, n) == count_unused(used2, n),
        sum_unused(freq, used, n) == sum_unused(freq, used2, n),
    decreases n,
{
    if n > 0 {
        lemma_unused_frame(freq, used, used2, (n - 1) as nat);
    }
}

proof fn lemma_sum_frame(freq: Seq<u64>, freq2: Seq<u64>, used: Seq<bool>, n: nat)
    requires
        n <= freq.len(),
        n <= freq2.len(),
        forall|i: int| 0 <= i < n ==> freq[i] == freq2[i],
    ensures
        sum_unused(freq, used, n) == sum_unused(freq2, used, n),
    decreases n,
{
    if n > 0 {
        lemma_sum_frame(freq, freq2, used, (n - 1) as nat);
    }
}

proof fn lemma_unused_member(freq: Seq<u64>, used: Seq<bool>, n: nat, v: int)
    requires
        0 <= v < n <= used.len(),
        !used[v],
    ensures
        freq[v] <= sum_unused(freq, used, n),
        count_unused(used, n) >= 1,
    decreases n,
{
    if n - 1 > v {
        lemma_unused_member(freq, used, (n - 1) as nat, v);
    }
}

proof fn lemma_unused_exists(used: Seq<bool>, n: nat)
    requires
        n <= used.len(),
        count_unused(used, n) >= 1,
    ensures
        exists|i: int| 0 <= i < n && !used[i],
    decreases n,
{
    if used[n - 1] {
        lemma_unused_exists(used, (n - 1) as nat);
    }
}

proof fn lemma_unused_only(used: Seq<bool>, n: nat, v: int)
    requires
        0 <= v < n <= used.len(),
        !used[v],
        count_unused(used, n) == 1,
    ensures
        forall|i: int| 0 <= i < n && i != v ==> used[i],
    decreases n,
{
    assert forall|i: int| 0 <= i < n && i != v implies used[i] by {
        if !used[i] {
            lemma_two_unused(used, n, v, i);
        }
    }
}

proof fn lemma_two_unused(used: Seq<bool>, n: nat, a: int, b: int)
    requires
        0 <= a < n <= used.len(),
        0 <= b < n,
        a != b,
        !used[a],
        !used[b],
    ensures
        count_unused(used, n) >= 2,
    decreases n,
{
    if n - 1 > a && n - 1 > b {
        lemma_two_unused(used, (n - 1) as nat, a, b);
    } else if n - 1 == a {
        lemma_unused_member(Seq::<u64>::empty(), used, (n - 1) as nat, b);
    } else {
        lemma_unused_member(Seq::<u64>::empty(), used, (n - 1) as nat, a);
    }
}

/// `r` is the unused node of least count among `0..count`, the last one
/// among equal counts.
pub open spec fn is_lightest(freq: Seq<u64>, used: Seq<bool>, count: int, r: int) -> bool {
    &&& 0 <= r < count
    &&& !used[r]
    &&& forall|i: int| 0 <= i < count && !used[i] ==> freq[r] <= #[trigger] freq[i]
    &&& forall|i: int| r < i < count && !used[i] ==> freq[r] < #[trigger] freq[i]
}

/// The unused node of least count among `0..count`, the last one among
/// equal counts.
pub open spec fn lightest(freq: Seq<u64>, used: Seq<bool>, count: int) -> int {
    choose|r: int| is_lightest(freq, used, count, r)
}

proof fn lemma_lightest_is(freq: Seq<u64>, used: Seq<bool>, count: int, r: int)
    requires
        is_lightest(freq, used, count, r),
    ensures
        lightest(freq, used, count) == r,
{
    let l = lightest(freq, used, count);
    assert(is_lightest(freq, used, count, l));
    if l < r {
        assert(freq[l] < freq[r]);
        assert(freq[r] <= freq[l]);
    } else if r < l {
        assert(freq[r] < freq[l]);
        assert(freq[l] <= freq[r]);
    }
}

/// A Huffman forest: node counts, which nodes have a parent, and the parent
/// links.
pub type Forest = (Seq<u64>, Seq<bool>, Seq<usize>);

/// The forest after one merge creating node `next`: the two lightest roots
/// become its children and its count is the sum of theirs (T.81 Figure K.1).
pub open spec fn merge_step(f: Forest, next: int) -> Forest {
    let v1 = lightest(f.0, f.1, next);
    let u1 = f.1.update(v1, true);
    let v2 = lightest(f.0, u1, next);
    (
        f.0.update(next, (f.0[v1] + f.0[v2]) as u64),
        u1.update(v2, true),
        f.2.update(v1, next as usize).update(v2, next as usize),
    )
}

/// The forest of the symbols' leaves and a reserved leaf of count 1, after
/// `t` merges.
pub open spec fn merged(symbols: Seq<(u8, u32)>, t: nat) -> Forest
    decreases t,
{
    let n = symbols.len();
    if t == 0 {
        (
            Seq::new(
                2 * (n + 1),
                |k: int|
                    if k < n {
                        symbols[k].1 as u64
                    } else if k == n {
                        1u64
                    } else {
                        0u64
                    },
            ),
            Seq::new(2 * (n + 1), |k: int| false),
            Seq::new(2 * (n + 1), |k: int| 0usize),
        )
    } else {
        merge_step(merged(symbols, (t - 1) as nat), (n + t) as int)
    }
}

/// The number of parent links from `node` up to `root`.
pub open spec fn tree_depth(parent: Seq<usize>, root: int, node: int) -> nat
    decreases root - node,
{
    if node < 0 || node >= root || node >= parent.len() || parent[node] <= node || parent[node] > root {
        0
    } else {
        1 + tree_depth(parent, root, parent[node] as int)
    }
}

/// The code length of the reserved code point: the depth of leaf n in the
/// tree that n merges build from the n + 1 leaves, rooted at node 2n.
pub open spec fn reserved_length(symbols: Seq<(u8, u32)>) -> u32 {
    let n = symbols.len();
    tree_depth(merged(symbols, n).2, 2 * n as int, n as int) as u32
}

/// The code lengths of the Huffman procedure: each symbol's depth in the
/// tree that n merges build from its n + 1 leaves, rooted at node 2n.
pub open spec fn huffman_lengths(symbols: Seq<(u8, u32)>) -> Seq<(u8, u32)> {
    let n = symbols.len();
    let parent = merged(symbols, n).2;
    Seq::new(n, |i: int| (symbols[i].0, tree_depth(parent, 2 * n as int, i) as u32))
}

/// The weight 2^(600 - depth) of node `v` in the tree given by `parent`.
pub open spec fn node_weight(parent: Seq<usize>, root: int, v: int) -> nat {
    pow2((600 - tree_depth(parent, root, v)) as nat)
}

/// The summed weights of the nodes among the first `cnt` that are not yet
/// used as children: the roots of a forest, weighed by their depth in the
/// final tree.
pub open spec fn root_weight(parent: Seq<usize>, root: int, used: Seq<bool>, cnt: nat) -> nat
    decreases cnt,
{
    if cnt == 0 {
        0
    } else {
        root_weight(parent, root, used, (cnt - 1) as nat) + if !used[cnt - 1] {
            node_weight(parent, root, cnt - 1)
        } else {
            0
        }
    }
}

/// The summed weights of the first `cnt` nodes.
pub open spec fn leaf_weight(parent: Seq<usize>, root: int, cnt: nat) -> nat
    decreases cnt,
{
    if cnt == 0 {
        0
    } else {
        leaf_weight(parent, root, (cnt - 1) as nat) + node_weight(parent, root, cnt - 1)
    }
}

proof fn lemma_tree_depth_bound(parent: Seq<usize>, root: int, v: int)
    ensures
        v < root ==> tree_depth(parent, root, v) <= root - v,
        v >= root ==> tree_depth(parent, root, v) == 0,
    decreases root - v,
{
    if 0 <= v < root && v < parent.len() && parent[v] > v && parent[v] <= root {
        lemma_tree_depth_bound(parent, root, parent[v] as int);
    }
}

proof fn lemma_root_weight_frame(parent: Seq<usize>, root: int, u1: Seq<bool>, u2: Seq<bool>, cnt: nat)
    requires
        forall|k: int| 0 <= k < cnt ==> u1[k] == u2[k],
    ensures
        root_weight(parent, root, u1, cnt) == root_weight(parent, root, u2, cnt),
    decreases cnt,
{
    if cnt > 0 {
        lemma_root_weight_frame(parent, root, u1, u2, (cnt - 1) as nat);
    }
}

proof fn lemma_root_weight_flip(parent: Seq<usize>, root: int, used: Seq<bool>, cnt: nat, v: int)
    requires
        0 <= v < cnt <= used.len(),
        !used[v],
    ensures
        root_weight(parent, root, used.update(v, true), cnt) + node_weight(parent, root, v) == root_weight(
            parent,
            root,
            used,
            cnt,
        ),
    decreases cnt,
{
    if cnt - 1 > v {
        lemma_root_weight_flip(parent, root, used, (cnt - 1) as nat, v);
    } else {
        lemma_root_weight_frame(parent, root, used, used.update(v, true), (cnt - 1) as nat);
    }
}

proof fn lemma_root_weight_none(parent: Seq<usize>, root: int, used: Seq<bool>, cnt: nat)
    requires
        forall|k: int| 0 <= k < cnt ==> used[k],
    ensures
        root_weight(parent, root, used, cnt) == 0,
    decreases cnt,
{
    if cnt > 0 {
        lemma_root_weight_none(parent, root, used, (cnt - 1) as nat);
    }
}

proof fn lemma_root_weight_all(parent: Seq<usize>, root: int, used: Seq<bool>, cnt: nat)
    requires
        forall|k: int| 0 <= k < cnt ==> !used[k],
    ensures
        root_weight(parent, root, used, cnt) == leaf_weight(parent, root, cnt),
    decreases cnt,
{
    if cnt > 0 {
        lemma_root_weight_all(parent, root, used, (cnt - 1) as nat);
    }
}

/// What the merges of a Huffman forest recorded: at step `s` the nodes
/// `a[s]` and `b[s]`, roots until then, became the children of node
/// n + 1 + s; after all merges only the root 2n is left without a parent.
pub open spec fn merges_recorded(symbols: Seq<(u8, u32)>, a: Seq<int>, b: Seq<int>) -> bool {
    let n = symbols.len();
    let p = merged(symbols, n).2;
    &&& a.len() == n
    &&& b.len() == n
    &&& p.len() == 2 * (n + 1)
    &&& forall|s: int|
        0 <= s < n ==> {
            let c = n + 1 + s;
            &&& 0 <= #[trigger] a[s] < c
            &&& 0 <= b[s] < c
            &&& a[s] != b[s]
            &&& p[a[s]] == c
            &&& p[b[s]] == c
            &&& merged(symbols, s as nat).1.len() == 2 * (n + 1)
            &&& !merged(symbols, s as nat).1[a[s]]
            &&& !merged(symbols, s as nat).1[b[s]]
            &&& merged(symbols, (s + 1) as nat).1 == merged(symbols, s as nat).1.update(a[s], true).update(b[s], true)
            &&& !merged(symbols, (s + 1) as nat).1[c]
        }
    &&& forall|v: int| 0 <= v < 2 * n ==> merged(symbols, n).1[v]
    &&& !merged(symbols, n).1[2 * n as int]
}

/// Each merge keeps the weight of the roots: two children of depth d + 1
/// weigh what their parent of depth d weighs.
proof fn lemma_root_weight_steps(symbols: Seq<(u8, u32)>, a: Seq<int>, b: Seq<int>, t: nat)
    requires
        1 <= symbols.len() <= 256,
        t <= symbols.len(),
        merges_recorded(symbols, a, b),
    ensures
        root_weight(
            merged(symbols, symbols.len()).2,
            2 * symbols.len() as int,
            merged(symbols, t).1,
            symbols.len() + 1 + t,
        ) == pow2(600),
    decreases symbols.len() - t,
{
    let n = symbols.len();
    let p = merged(symbols, n).2;
    let root = 2 * n as int;
    if t == n {
        let u = merged(symbols, n).1;
        lemma_root_weight_none(p, root, u, (2 * n) as nat);
        lemma_tree_depth_bound(p, root, root);
        assert(root_weight(p, root, u, (2 * n + 1) as nat) == root_weight(p, root, u, (2 * n) as nat)
            + node_weight(p, root, root));
    } else {
        lemma_root_weight_steps(symbols, a, b, t + 1);
        let s = t as int;
        let c = n + 1 + s;
        let u = merged(symbols, t).1;
        let ua = u.update(a[s], true);
        let u2 = ua.update(b[s], true);
        assert(merged(symbols, (t + 1) as nat).1 == u2);
        assert(root_weight(p, root, u2, (c + 1) as nat) == root_weight(p, root, u2, c as nat) + node_weight(
            p,
            root,
            c,
        ));
        lemma_root_weight_flip(p, root, ua, c as nat, b[s]);
        lemma_root_weight_flip(p, root, u, c as nat, a[s]);
        lemma_tree_depth_bound(p, root, c);
        assert(tree_depth(p, root, a[s]) == 1 + tree_depth(p, root, c));
        assert(tree_depth(p, root, b[s]) == 1 + tree_depth(p, root, c));
        let dc = tree_depth(p, root, c);
        lemma_pow2_unfold((600 - dc) as nat);
        assert((600 - (1 + dc)) as nat == (600 - dc - 1) as nat);
    }
}

/// The Huffman tree is full: the weights 2^(600 - depth) of its n + 1
/// leaves add up to 2^600.
proof fn lemma_huffman_kraft(symbols: Seq<(u8, u32)>, a: Seq<int>, b: Seq<int>)
    requires
        1 <= symbols.len() <= 256,
        merges_recorded(symbols, a, b),
    ensures
        leaf_weight(merged(symbols, symbols.len()).2, 2 * symbols.len() as int, symbols.len() + 1) == pow2(600),
{
    let n = symbols.len();
    lemma_root_weight_steps(symbols, a, b, 0);
    lemma_root_weight_all(merged(symbols, n).2, 2 * n as int, merged(symbols, 0).1, n + 1);
}

/// The summed weights 2^(600 - length) of the first `k` code lengths.
pub open spec fn length_weight(cl: Seq<(u8, u32)>, k: nat) -> nat
    decreases k,
{
    if k == 0 {
        0
    } else {
        length_weight(cl, (k - 1) as nat) + pow2((600 - cl[k - 1].1) as nat)
    }
}

/// The summed weights count * 2^(600 - length) of the lengths 1..hi - 1.
pub open spec fn bits_weight(b: Seq<u32>, hi: nat) -> nat
    decreases hi,
{
    if hi <= 1 {
        0
    } else {
        bits_weight(b, (hi - 1) as nat) + (b[hi - 1] as nat) * pow2((600 - (hi - 1)) as nat)
    }
}

/// The leaves' weights are the code lengths' weights.
proof fn lemma_leaf_weight_lengths(symbols: Seq<(u8, u32)>, k: nat)
    requires
        1 <= symbols.len() <= 256,
        k <= symbols.len(),
    ensures
        leaf_weight(merged(symbols, symbols.len()).2, 2 * symbols.len() as int, k) == length_weight(
            huffman_lengths(symbols),
            k,
        ),
    decreases k,
{
    if k > 0 {
        lemma_leaf_weight_lengths(symbols, (k - 1) as nat);
        let n = symbols.len();
        let p = merged(symbols, n).2;
        lemma_tree_depth_bound(p, 2 * n as int, k - 1);
        assert(huffman_lengths(symbols)[k - 1].1 == tree_depth(p, 2 * n as int, k - 1));
    }
}

proof fn lemma_bits_weight_update(b: Seq<u32>, hi: nat, l: int)
    requires
        1 <= l < hi <= b.len(),
        b[l] < u32::MAX,
    ensures
        bits_weight(b.update(l, (b[l] + 1) as u32), hi) == bits_weight(b, hi) + pow2((600 - l) as nat),
    decreases hi,
{
    if hi - 1 > l {
        lemma_bits_weight_update(b, (hi - 1) as nat, l);
    } else {
        lemma_bits_weight_frame(b, b.update(l, (b[l] + 1) as u32), (hi - 1) as nat);
        lemma_mul_is_distributive_add_other_way(pow2((600 - l) as nat) as int, b[l] as int, 1);
    }
}

proof fn lemma_bits_weight_frame(b1: Seq<u32>, b2: Seq<u32>, hi: nat)
    requires
        forall|l: int| 1 <= l < hi ==> b1[l] == b2[l],
    ensures
        bits_weight(b1, hi) == bits_weight(b2, hi),
    decreases hi,
{
    if hi > 1 {
        lemma_bits_weight_frame(b1, b2, (hi - 1) as nat);
    }
}

/// Counting the lengths 1..=256 into BITS keeps their weight and number.
proof fn lemma_counted_weight(cl: Seq<(u8, u32)>, k: nat)
    requires
        k <= cl.len() <= 256,
        forall|i: int| 0 <= i < cl.len() ==> 1 <= (#[trigger] cl[i]).1 <= 256,
    ensures
        bits_weight(counted_bits(cl, k), 257) == length_weight(cl, k),
        counted_bits(cl, k).len() == 257,
        sum_range(counted_bits(cl, k), 1, 257) == k,
        counted_bits(cl, k)[0] == 0,
        forall|l: int| 0 <= l < 257 ==> #[trigger] counted_bits(cl, k)[l] <= k,
    decreases k,
{
    if k == 0 {
        lemma_bits_weight_zero(counted_bits(cl, 0), 257);
        lemma_sum_range_zero(counted_bits(cl, 0), 1, 257);
    } else {
        lemma_counted_weight(cl, (k - 1) as nat);
        let b = counted_bits(cl, (k - 1) as nat);
        let len = cl[k - 1].1;
        assert(1 <= cl[k - 1].1 <= 256);
        lemma_bits_weight_update(b, 257, len as int);
        lemma_sum_range_update(b, 1, 257, len as int, (b[len as int] + 1) as u32);
    }
}

proof fn lemma_bits_weight_zero(b: Seq<u32>, hi: nat)
    requires
        forall|l: int| 1 <= l < hi ==> b[l] == 0,
    ensures
        bits_weight(b, hi) == 0,
    decreases hi,
{
    if hi > 1 {
        lemma_bits_weight_zero(b, (hi - 1) as nat);
    }
}

proof fn lemma_counted_len(cl: Seq<(u8, u32)>, k: nat)
    ensures
        counted_bits(cl, k).len() == 257,
    decreases k,
{
    if k > 0 {
        lemma_counted_len(cl, (k - 1) as nat);
    }
}

/// Adding `d` codes of length `l` adds d * 2^(600 - l) to the weight.
proof fn lemma_bits_weight_add(b: Seq<u32>, hi: nat, l: int, d: int)
    requires
        1 <= l < hi <= b.len(),
        0 <= b[l] + d <= u32::MAX,
    ensures
        bits_weight(b.update(l, (b[l] + d) as u32), hi) == bits_weight(b, hi) + d * pow2((600 - l) as nat),
    decreases hi,
{
    if hi - 1 > l {
        lemma_bits_weight_add(b, (hi - 1) as nat, l, d);
    } else {
        lemma_bits_weight_frame(b, b.update(l, (b[l] + d) as u32), (hi - 1) as nat);
        lemma_mul_is_distributive_add_other_way(pow2((600 - l) as nat) as int, b[l] as int, d);
    }
}

/// The counts of lengths 1..=i read as a binary number whose last digit is
/// the count of length i: their Kraft sum scaled by 2^i.
pub open spec fn scaled_counts(b: Seq<u32>, i: int) -> int
    decreases i,
{
    if i <= 0 {
        0
    } else {
        2 * scaled_counts(b, i - 1) + b[i]
    }
}

proof fn lemma_scaled_weight(b: Seq<u32>, i: int)
    requires
        0 <= i <= 600,
    ensures
        bits_weight(b, (i + 1) as nat) == scaled_counts(b, i) * pow2((600 - i) as nat),
    decreases i,
{
    if i > 0 {
        lemma_scaled_weight(b, i - 1);
        let p = pow2((600 - i) as nat);
        lemma_pow2_unfold((601 - i) as nat);
        assert(pow2((601 - i) as nat) == 2 * p);
        let s = scaled_counts(b, i - 1);
        let x = b[i] as int;
        assert(bits_weight(b, (i + 1) as nat) == bits_weight(b, i as nat) + x * p);
        assert(s * (2 * p) + x * p == (2 * s + x) * p) by (nonlinear_arith);
    }
}

proof fn lemma_scaled_zero(b: Seq<u32>, i: int)
    requires
        forall|l: int| 1 <= l <= i ==> b[l] == 0,
    ensures
        scaled_counts(b, i) == 0,
    decreases i,
{
    if i > 0 {
        lemma_scaled_zero(b, i - 1);
    }
}

proof fn lemma_bits_weight_tail(b: Seq<u32>, lo: nat, hi: nat)
    requires
        1 <= lo <= hi,
        forall|l: int| lo <= l < hi ==> b[l] == 0,
    ensures
        bits_weight(b, hi) == bits_weight(b, lo),
    decreases hi,
{
    if hi > lo {
        lemma_bits_weight_tail(b, lo, (hi - 1) as nat);
        lemma_mul_basics(pow2((600 - (hi - 1)) as nat) as int);
    }
}

/// In a full tree (weight 2^600) whose codes are at most i bits long, the
/// counts of lengths 1..=i read in binary are 2^i.
proof fn lemma_full_scaled(b: Seq<u32>, i: int)
    requires
        1 <= i <= 256,
        b.len() == 257,
        forall|l: int| i < l < 257 ==> b[l] == 0,
        bits_weight(b, 257) == pow2(600),
    ensures
        scaled_counts(b, i) == pow2(i as nat),
{
    lemma_bits_weight_tail(b, (i + 1) as nat, 257);
    lemma_scaled_weight(b, i);
    let p = pow2((600 - i) as nat);
    lemma_pow2_adds(i as nat, (600 - i) as nat);
    lemma_pow2_pos((600 - i) as nat);
    let s = scaled_counts(b, i);
    let q = pow2(i as nat) as int;
    assert(s * p == q * p);
    lemma_mul_is_commutative(s, p as int);
    lemma_mul_is_commutative(q, p as int);
    lemma_mul_equality_converse(p as int, s, q);
}

/// In a full tree the number of codes of the longest length is even.
proof fn lemma_level_even(b: Seq<u32>, i: int)
    requires
        1 <= i <= 256,
        b.len() == 257,
        forall|l: int| i < l < 257 ==> b[l] == 0,
        bits_weight(b, 257) == pow2(600),
    ensures
        b[i] % 2 == 0,
{
    lemma_full_scaled(b, i);
    lemma_pow2_unfold(i as nat);
    let h = pow2((i - 1) as nat) - scaled_counts(b, i - 1);
    assert(b[i] == h * 2);
    lemma_mod_multiples_basic(h, 2);
}

proof fn lemma_sum_range_two(s: Seq<u32>, lo: int, hi: int, a: int, b: int)
    requires
        0 <= lo <= a < b < hi <= s.len(),
    ensures
        s[a] + s[b] <= sum_range(s, lo, hi),
{
    lemma_sum_range_split(s, lo, b, hi);
    lemma_sum_range_member(s, lo, b, a);
    lemma_sum_range_member(s, b, hi, b);
}

/// In a full tree of at most 257 leaves whose longest codes have i > 16
/// bits, some code is shorter than i - 1 bits.
proof fn lemma_shorter_code(b: Seq<u32>, i: int)
    requires
        17 <= i <= 256,
        b.len() == 257,
        forall|l: int| i < l < 257 ==> b[l] == 0,
        bits_weight(b, 257) == pow2(600),
        sum_range(b, 1, 257) <= 257,
    ensures
        last_nonzero(b, i - 2) > 0,
{
    lemma_last_nonzero_range(b, i - 2);
    if last_nonzero(b, i - 2) == 0 {
        lemma_scaled_zero(b, i - 2);
        lemma_full_scaled(b, i);
        assert(scaled_counts(b, i) == 2 * scaled_counts(b, i - 1) + b[i]);
        assert(scaled_counts(b, i - 1) == 2 * scaled_counts(b, i - 2) + b[i - 1]);
        lemma_sum_range_two(b, 1, 257, i - 1, i);
        lemma_pow2_le(17, i as nat);
        lemma2_to64();
        assert(false);
    }
}

/// A redistribution keeps the weight.
proof fn lemma_redistribute_weight(b: Seq<u32>, i: int, j: int)
    requires
        b.len() == 257,
        1 <= j <= i - 2,
        i <= 256,
        b[i] >= 2,
        b[j] >= 1,
        b[i - 1] + 3 <= u32::MAX,
        b[j + 1] + 3 <= u32::MAX,
    ensures
        bits_weight(redistribute(b, i, j), 257) == bits_weight(b, 257),
{
    let b1 = b.update(i, (b[i] - 2) as u32);
    let b2 = b1.update(i - 1, (b1[i - 1] + 1) as u32);
    let b3 = b2.update(j + 1, (b2[j + 1] + 2) as u32);
    let b4 = b3.update(j, (b3[j] - 1) as u32);
    assert(b4 == redistribute(b, i, j));
    lemma_bits_weight_add(b, 257, i, -2);
    assert(b1 == b.update(i, (b[i] + -2) as u32));
    lemma_bits_weight_add(b1, 257, i - 1, 1);
    lemma_bits_weight_add(b2, 257, j + 1, 2);
    lemma_bits_weight_add(b3, 257, j, -1);
    assert(b4 == b3.update(j, (b3[j] + -1) as u32));
    lemma_pow2_unfold((601 - i) as nat);
    lemma_pow2_unfold((600 - j) as nat);
    assert((600 - (i - 1)) as nat == (601 - i) as nat);
    assert((600 - (j + 1)) as nat == (599 - j) as nat);
}

/// The weight of counts with a single non-zero length.
proof fn lemma_bits_weight_single(b: Seq<u32>, hi: nat, l: int)
    requires
        1 <= l < hi <= b.len(),
        forall|k: int| 1 <= k < hi && k != l ==> b[k] == 0,
    ensures
        bits_weight(b, hi) == (b[l] as nat) * pow2((600 - l) as nat),
    decreases hi,
{
    if hi - 1 > l {
        lemma_bits_weight_single(b, (hi - 1) as nat, l);
        lemma_mul_basics(pow2((600 - (hi - 1)) as nat) as int);
    } else {
        lemma_bits_weight_zero(b, l as nat);
    }
}

/// The counts of a full tree limited to 16 bits, with the reserved code
/// point taken from the longest length: that length exists, and the weight
/// falls short of 2^600 by one code of it.
proof fn lemma_removed_weight(c: Seq<u32>)
    requires
        c.len() == 257,
        bits_weight(c, 257) == pow2(600),
        forall|l: int| 17 <= l < 257 ==> c[l] == 0,
    ensures
        1 <= last_nonzero(c, 16) <= 16,
        without_reserved(c).len() == 257,
        forall|l: int| 17 <= l < 257 ==> without_reserved(c)[l] == 0,
        bits_weight(without_reserved(c), 17) + pow2((600 - last_nonzero(c, 16)) as nat) == pow2(600),
{
    lemma_last_nonzero_range(c, 16);
    let l = last_nonzero(c, 16);
    if l == 0 {
        lemma_bits_weight_zero(c, 257);
        lemma_pow2_pos(600);
    }
    let w = without_reserved(c);
    lemma_bits_weight_add(c, 257, l, -1);
    assert(w == c.update(l, (c[l] + -1) as u32));
    lemma_bits_weight_tail(w, 17, 257);
}

/// The BITS list of a table from a full tree limited to 16 bits, with the
/// reserved code point taken out, satisfies the Kraft inequality strictly.
proof fn lemma_table_kraft(c: Seq<u32>, bits8: Seq<u8>)
    requires
        c.len() == 257,
        bits_weight(c, 257) == pow2(600),
        forall|l: int| 17 <= l < 257 ==> c[l] == 0,
        bits8.len() == 16,
        forall|l: int| 0 <= l < 16 ==> bits8[l] <= #[trigger] without_reserved(c)[l + 1],
    ensures
        kraft(huffsizes(bits8, 16)) < pow2(16),
{
    lemma_removed_weight(c);
    let w = without_reserved(c);
    lemma_pow2_pos((600 - last_nonzero(c, 16)) as nat);
    lemma_short_weight_bound(w, bits8, 16);
    lemma_kraft_huffsizes(bits8, 16);
    lemma_pow2_adds(16, 584);
    lemma_pow2_pos(584);
    lemma_mul_strict_inequality_converse(short_weight(bits8, 16) as int, pow2(16) as int, pow2(584) as int);
}

/// After the reserved code point is taken out of a full tree of at most 257
/// leaves limited to 16 bits, no length has more than 255 codes.
proof fn lemma_limited_small(c: Seq<u32>, l: int)
    requires
        c.len() == 257,
        bits_weight(c, 257) == pow2(600),
        forall|k: int| 17 <= k < 257 ==> c[k] == 0,
        sum_range(without_reserved(c), 1, 17) <= 256,
        1 <= l <= 16,
    ensures
        without_reserved(c)[l] <= 255,
{
    let w = without_reserved(c);
    if w[l] > 255 {
        lemma_removed_weight(c);
        let top = last_nonzero(c, 16);
        lemma_last_nonzero_range(c, 16);
        lemma_sum_range_member(w, 1, 17, l);
        assert forall|k: int| 1 <= k < 17 && k != l implies w[k] == 0 by {
            if k < l {
                lemma_sum_range_two(w, 1, 17, k, l);
            } else {
                lemma_sum_range_two(w, 1, 17, l, k);
            }
        }
        lemma_bits_weight_single(w, 17, l);
        assert(w[l] == 256);
        lemma2_to64();
        lemma_pow2_adds(8, (600 - l) as nat);
        assert(bits_weight(w, 17) == pow2((608 - l) as nat));
        lemma_pow2_pos((600 - top) as nat);
        if l <= 8 {
            lemma_pow2_le(600, (608 - l) as nat);
        } else {
            assert(c[l] != 0);
            assert(l <= top);
            lemma_pow2_le((608 - l) as nat, 599);
            lemma_pow2_le((600 - top) as nat, 591);
            lemma_pow2_strictly_increases(591, 599);
            lemma_pow2_unfold(600);
        }
    }
}

/// The weights 2^(16 - length) of the first `m` BITS entries.
pub open spec fn short_weight(bits8: Seq<u8>, m: nat) -> nat
    decreases m,
{
    if m == 0 {
        0
    } else {
        short_weight(bits8, (m - 1) as nat) + (bits8[m - 1] as nat) * pow2((16 - m) as nat)
    }
}

proof fn lemma_kraft_append(a: Seq<u8>, b: Seq<u8>)
    ensures
        kraft(a + b) == kraft(a) + kraft(b),
    decreases b.len(),
{
    if b.len() == 0 {
        assert(a + b =~= a);
    } else {
        lemma_kraft_append(a, b.drop_last());
        assert((a + b).drop_last() =~= a + b.drop_last());
    }
}

proof fn lemma_kraft_constant(c: nat, m: u8)
    ensures
        kraft(Seq::new(c, |j: int| m)) == c * pow2((16 - m) as nat),
    decreases c,
{
    let p = pow2((16 - m) as nat);
    if c == 0 {
        assert(Seq::new(c, |j: int| m).len() == 0);
        assert(c * p == 0);
    } else {
        lemma_kraft_constant((c - 1) as nat, m);
        let sq = Seq::new(c, |j: int| m);
        assert(sq.drop_last() =~= Seq::new((c - 1) as nat, |j: int| m));
        assert(sq.last() == m);
        assert(kraft(sq) == kraft(sq.drop_last()) + p);
        assert((c - 1) * p + p == c * p) by (nonlinear_arith);
    }
}

/// The Kraft sum of the lengths BITS lists.
proof fn lemma_kraft_huffsizes(bits8: Seq<u8>, m: nat)
    requires
        m <= bits8.len(),
        m <= 16,
    ensures
        kraft(huffsizes(bits8, m)) == short_weight(bits8, m),
    decreases m,
{
    if m > 0 {
        lemma_kraft_huffsizes(bits8, (m - 1) as nat);
        lemma_kraft_append(huffsizes(bits8, (m - 1) as nat), Seq::new(bits8[m - 1] as nat, |j: int| m as u8));
        lemma_kraft_constant(bits8[m - 1] as nat, m as u8);
    }
}

/// A weight below 2^600 over lengths 1..=16 is a Kraft sum below 2^16 for
/// BITS entries no larger than the counts.
proof fn lemma_short_weight_bound(b: Seq<u32>, bits8: Seq<u8>, m: nat)
    requires
        m <= 16,
        b.len() >= 17,
        bits8.len() == 16,
        forall|l: int| 0 <= l < 16 ==> bits8[l] <= #[trigger] b[l + 1],
    ensures
        short_weight(bits8, m) * pow2(584) <= bits_weight(b, m + 1),
    decreases m,
{
    let q = pow2(584);
    if m == 0 {
        assert(short_weight(bits8, 0) == 0);
        lemma_mul_basics(q as int);
    } else {
        lemma_short_weight_bound(b, bits8, (m - 1) as nat);
        let e = (16 - m) as nat;
        lemma_pow2_adds(e, 584);
        assert(e + 584 == (600 - m) as nat);
        let pe = pow2(e);
        let x = bits8[m - 1] as nat;
        let y = b[m as int] as nat;
        assert(bits8[(m - 1) as int] <= b[(m - 1) + 1]);
        assert(x <= y);
        let sw = short_weight(bits8, (m - 1) as nat);
        assert(short_weight(bits8, m) == sw + x * pe);
        assert(bits_weight(b, m + 1) == bits_weight(b, m) + y * pow2((600 - m) as nat));
        assert((sw + x * pe) * q <= sw * q + y * (pe * q)) by (nonlinear_arith)
            requires
                x <= y,
        ;
    }
}

/// The index of the unused node of least frequency among `0..count`
/// (never `exclude`); among equal frequencies the largest index. Returns
/// `usize::MAX` when there is no candidate.
fn find_min_unused(freq: &[u64], used: &[bool], count: usize, exclude: usize) -> (r: usize)
    requires
        count <= freq@.len(),
        count <= used@.len(),
    ensures
        r == usize::MAX <==> forall|i: int| 0 <= i < count ==> used@[i] || i == exclude,
        r != usize::MAX ==> {
            &&& r < count
            &&& !used@[r as int]
            &&& r != exclude
            &&& forall|i: int|
                0 <= i < count && !used@[i] && i != exclude ==> freq@[r as int] <= freq@[i]
            &&& forall|i: int|
                r < i < count && !used@[i] && i != exclude ==> freq@[r as int] < freq@[i]
        },
{
    let mut min_idx = usize::MAX;
    let mut min_freq = u64::MAX;
    let mut i: usize = 0;
    while i < count
        invariant
            i <= count <= freq@.len(),
            count <= used@.len(),
            min_idx == usize::MAX ==> forall|k: int| 0 <= k < i ==> used@[k] || k == exclude,
            min_idx == usize::MAX ==> min_freq == u64::MAX,
            min_idx != usize::MAX ==> {
                &&& min_idx < i
                &&& !used@[min_idx as int]
                &&& min_idx != exclude
                &&& min_freq == freq@[min_idx as int]
                &&& forall|k: int|
                    0 <= k < i && !used@[k] && k != exclude ==> freq@[min_idx as int] <= freq@[k]
                &&& forall|k: int|
                    min_idx < k < i && !used@[k] && k != exclude ==> freq@[min_idx as int] < freq@[k]
            },
        decreases count - i,
    {
        if !used[i] && i != exclude && freq[i] <= min_freq {
            min_freq = freq[i];
            min_idx = i;
        }
        i = i + 1;
    }
    min_idx
}

/// Code lengths from the greedy Huffman procedure (T.81 Figure K.1): the
/// two least frequent trees are merged until one tree remains; a reserved
/// leaf of frequency 1 is added so that no code is all 1-bits (§K.2). The
/// length of a symbol is the depth of its leaf; the depth of the reserved
/// leaf is returned beside them. Together the lengths form a complete
/// prefix code: the sum of 2^-length over the symbols and the reserved leaf
/// is exactly 1 (scaled here by 2^600).
fn compute_code_lengths(symbols: &[(u8, u32)]) -> (r: (Vec<(u8, u32)>, u32))
    requires
        1 <= symbols@.len() <= 256,
    ensures
        r.0@ == huffman_lengths(symbols@),
        r.1 == reserved_length(symbols@),
        length_weight(r.0@, symbols@.len()) + pow2((600 - r.1) as nat) == pow2(600),
        1 <= r.1 <= symbols@.len(),
        leaf_weight(merged(symbols@, symbols@.len()).2, 2 * symbols@.len() as int, symbols@.len() + 1)
            == pow2(600),
        r.0@.len() == symbols@.len(),
        forall|i: int|
            0 <= i < r.0@.len() ==> (#[trigger] r.0@[i]).0 == symbols@[i].0 && 1 <= r.0@[i].1
                <= symbols@.len(),
{
    let n = symbols.len();
    let total_leaves = n + 1;
    let max_nodes = 2 * total_leaves;
    let mut node_freq = vec![0u64; max_nodes];
    let mut parent = vec![0usize; max_nodes];
    let mut used = vec![false; max_nodes];
    let mut i: usize = 0;
    while i < n
        invariant
            i <= n,
            n == symbols@.len(),
            1 <= n <= 256,
            max_nodes == 2 * (n + 1),
            node_freq@.len() == max_nodes,
            forall|k: int| 0 <= k < i ==> node_freq@[k] == symbols@[k].1,
            forall|k: int| i <= k < max_nodes ==> node_freq@[k] == 0,
        decreases n - i,
    {
        node_freq.set(i, symbols[i].1 as u64);
        i = i + 1;
    }
    node_freq.set(n, 1);
    proof {
        let m0 = merged(symbols@, 0);
        assert(node_freq@ =~= m0.0);
        assert(used@ =~= m0.1);
        assert(parent@ =~= m0.2);
    }
    let ghost total: nat = sum_unused(node_freq@, used@, total_leaves as nat);
    proof {
        assert forall|k: int| 0 <= k < total_leaves implies #[trigger] node_freq@[k] <= u32::MAX by {}
        lemma_sum_bound(node_freq@, used@, total_leaves as nat);
        lemma_all_unused_count(used@, total_leaves as nat);
    }
    let mut next_internal = total_leaves;
    let mut t: usize = 0;
    let ghost mut ga: Seq<int> = Seq::empty();
    let ghost mut gb: Seq<int> = Seq::empty();
    while t < total_leaves - 1
        invariant
            2 <= total_leaves <= 257,
            max_nodes == 2 * total_leaves,
            node_freq@.len() == max_nodes,
            parent@.len() == max_nodes,
            used@.len() == max_nodes,
            next_internal == total_leaves + t,
            t <= total_leaves - 1,
            count_unused(used@, next_internal as nat) == total_leaves - t,
            sum_unused(node_freq@, used@, next_internal as nat) == total,
            total <= 257 * u32::MAX,
            forall|k: int| next_internal <= k < max_nodes ==> !used@[k],
            forall|k: int|
                0 <= k < next_internal && used@[k] ==> k < parent@[k] < next_internal
                    && total_leaves <= parent@[k],
            total_leaves == symbols@.len() + 1,
            (node_freq@, used@, parent@) == merged(symbols@, t as nat),
            ga.len() == t,
            gb.len() == t,
            forall|s: int|
                0 <= s < t ==> {
                    let c = total_leaves + s;
                    &&& 0 <= #[trigger] ga[s] < c
                    &&& 0 <= gb[s] < c
                    &&& ga[s] != gb[s]
                    &&& parent@[ga[s]] == c
                    &&& parent@[gb[s]] == c
                    &&& used@[ga[s]]
                    &&& used@[gb[s]]
                    &&& merged(symbols@, s as nat).1.len() == max_nodes
                    &&& !merged(symbols@, s as nat).1[ga[s]]
                    &&& !merged(symbols@, s as nat).1[gb[s]]
                    &&& merged(symbols@, (s + 1) as nat).1 == merged(symbols@, s as nat).1.update(ga[s], true).update(
                        gb[s],
                        true,
                    )
                    &&& !merged(symbols@, (s + 1) as nat).1[c]
                },
        decreases total_leaves - 1 - t,
    {
        let ghost st0: Forest = (node_freq@, used@, parent@);
        proof {
            lemma_unused_exists(used@, next_internal as nat);
        }
        let v1 = find_min_unused(&node_freq, &used, next_internal, usize::MAX);
        proof {
            assert(is_lightest(node_freq@, used@, next_internal as int, v1 as int));
            lemma_lightest_is(node_freq@, used@, next_internal as int, v1 as int);
        }
        let ghost used0 = used@;
        used.set(v1, true);
        proof {
            lemma_unused_update(node_freq@, used0, next_internal as nat, v1 as int);
            lemma_unused_exists(used@, next_internal as nat);
        }
        let v2 = find_min_unused(&node_freq, &used, next_internal, usize::MAX);
        proof {
            assert(is_lightest(node_freq@, used@, next_internal as int, v2 as int));
            lemma_lightest_is(node_freq@, used@, next_internal as int, v2 as int);
        }
        let ghost used1 = used@;
        used.set(v2, true);
        proof {
            lemma_unused_update(node_freq@, used1, next_internal as nat, v2 as int);
            lemma_two_sum(node_freq@, used0, next_internal as nat, v1 as int, v2 as int);
        }
        let internal = next_internal;
        let ghost freq0 = node_freq@;
        node_freq.set(internal, node_freq[v1] + node_freq[v2]);
        parent.set(v1, internal);
        parent.set(v2, internal);
        proof {
            lemma_sum_frame(freq0, node_freq@, used@, next_internal as nat);
            assert(!used@[internal as int]);
            let m = merge_step(st0, next_internal as int);
            assert(node_freq@ =~= m.0);
            assert(used@ =~= m.1);
            assert(parent@ =~= m.2);
            assert(merged(symbols@, (t + 1) as nat) == m);
            let ga0 = ga;
            let gb0 = gb;
            ga = ga.push(v1 as int);
            gb = gb.push(v2 as int);
            assert forall|s: int| 0 <= s < t + 1 implies {
                let c = total_leaves + s;
                &&& 0 <= #[trigger] ga[s] < c
                &&& 0 <= gb[s] < c
                &&& ga[s] != gb[s]
                &&& parent@[ga[s]] == c
                &&& parent@[gb[s]] == c
                &&& used@[ga[s]]
                &&& used@[gb[s]]
                &&& merged(symbols@, s as nat).1.len() == max_nodes
                &&& !merged(symbols@, s as nat).1[ga[s]]
                &&& !merged(symbols@, s as nat).1[gb[s]]
                &&& merged(symbols@, (s + 1) as nat).1 == merged(symbols@, s as nat).1.update(ga[s], true).update(
                    gb[s],
                    true,
                )
                &&& !merged(symbols@, (s + 1) as nat).1[c]
            } by {
                if s < t {
                    assert(ga[s] == ga0[s] && gb[s] == gb0[s]);
                    assert(used0[ga0[s]] && used0[gb0[s]]);
                    assert(ga0[s] != v1 && ga0[s] != v2 && gb0[s] != v1 && gb0[s] != v2);
                } else {
                    assert(ga[s] == v1 && gb[s] == v2);
                    assert(used1 == used0.update(v1 as int, true));
                }
            }
        }
        next_internal = next_internal + 1;
        t = t + 1;
    }
    let root = next_internal - 1;
    proof {
        assert(!used@[root as int]);
        lemma_unused_only(used@, next_internal as nat, root as int);
        assert(merges_recorded(symbols@, ga, gb));
        lemma_huffman_kraft(symbols@, ga, gb);
        assert forall|k: int| 0 <= k < root implies k < parent@[k] <= root && total_leaves
            <= parent@[k] by {
            assert(used@[k]);
        }
    }
    let mut result: Vec<(u8, u32)> = Vec::with_capacity(n);
    let mut i: usize = 0;
    while i < n
        invariant
            i <= n,
            n == symbols@.len(),
            1 <= n <= 256,
            total_leaves == n + 1,
            root == 2 * total_leaves - 2,
            parent@.len() == 2 * total_leaves,
            forall|k: int|
                0 <= k < root ==> k < parent@[k] <= root && total_leaves <= parent@[k],
            result@.len() == i,
            forall|k: int|
                0 <= k < i ==> (#[trigger] result@[k]).0 == symbols@[k].0 && 1 <= result@[k].1 <= n,
            parent@ == merged(symbols@, n as nat).2,
            forall|k: int| 0 <= k < i ==> #[trigger] result@[k] == huffman_lengths(symbols@)[k],
        decreases n - i,
    {
        let mut depth: u32 = 0;
        let mut node = i;
        let ghost full = tree_depth(parent@, root as int, i as int);
        while node != root
            invariant
                node <= root,
                i < n,
                1 <= n <= 256,
                total_leaves == n + 1,
                root == 2 * total_leaves - 2,
                parent@.len() == 2 * total_leaves,
                forall|k: int|
                    0 <= k < root ==> k < parent@[k] <= root && total_leaves <= parent@[k],
                (depth == 0 && node == i) || (total_leaves <= node && 1 <= depth && depth <= node
                    - total_leaves + 1),
                depth + tree_depth(parent@, root as int, node as int) == full,
                full == tree_depth(parent@, root as int, i as int),
            decreases root - node,
        {
            node = parent[node];
            depth = depth + 1;
        }
        proof {
            assert(i < root);
            assert(depth >= 1);
            assert(depth <= n);
        }
        let ghost r0 = result@;
        result.push((symbols[i].0, depth));
        proof {
            assert forall|k: int| 0 <= k < i + 1 implies (#[trigger] result@[k]).0 == symbols@[k].0
                && 1 <= result@[k].1 <= n by {
                if k < i {
                    assert(result@[k] == r0[k]);
                }
            }
            assert(huffman_lengths(symbols@)[i as int] == (symbols@[i as int].0, full as u32));
            assert forall|k: int| 0 <= k < i + 1 implies #[trigger] result@[k] == huffman_lengths(symbols@)[k] by {
                if k < i {
                    assert(result@[k] == r0[k]);
                }
            }
        }
        i = i + 1;
    }
    assert(result@ =~= huffman_lengths(symbols@));
    let mut depth: u32 = 0;
    let mut node = n;
    let ghost full = tree_depth(parent@, root as int, n as int);
    while node != root
        invariant
            node <= root,
            1 <= n <= 256,
            total_leaves == n + 1,
            root == 2 * total_leaves - 2,
            parent@.len() == 2 * total_leaves,
            forall|k: int|
                0 <= k < root ==> k < parent@[k] <= root && total_leaves <= parent@[k],
            (depth == 0 && node == n) || (total_leaves <= node && 1 <= depth && depth <= node
                - total_leaves + 1),
            depth + tree_depth(parent@, root as int, node as int) == full,
            full == tree_depth(parent@, root as int, n as int),
        decreases root - node,
    {
        node = parent[node];
        depth = depth + 1;
    }
    proof {
        let p = merged(symbols@, n as nat).2;
        let rt = 2 * n as int;
        assert(parent@ == p);
        lemma_leaf_weight_lengths(symbols@, n as nat);
        lemma_tree_depth_bound(p, rt, n as int);
        assert(leaf_weight(p, rt, (n + 1) as nat) == leaf_weight(p, rt, n as nat) + node_weight(p, rt, n as int));
    }
    (result, depth)
}

proof fn lemma_sum_bound(freq: Seq<u64>, used: Seq<bool>, n: nat)
    requires
        n <= freq.len(),
        n <= used.len(),
        forall|k: int| 0 <= k < n ==> #[trigger] freq[k] <= u32::MAX,
    ensures
        sum_unused(freq, used, n) <= n * u32::MAX,
    decreases n,
{
    if n > 0 {
        lemma_sum_bound(freq, used, (n - 1) as nat);
    }
}

proof fn lemma_all_unused_count(used: Seq<bool>, n: nat)
    requires
        n <= used.len(),
        forall|k: int| 0 <= k < n ==> !used[k],
    ensures
        count_unused(used, n) == n,
    decreases n,
{
    if n > 0 {
        lemma_all_unused_count(used, (n - 1) as nat);
    }
}

proof fn lemma_two_sum(freq: Seq<u64>, used: Seq<bool>, n: nat, a: int, b: int)
    requires
        0 <= a < n <= used.len(),
        0 <= b < n,
        a != b,
        !used[a],
        !used[b],
    ensures
        freq[a] + freq[b] <= sum_unused(freq, used, n),
    decreases n,
{
    if n - 1 > a && n - 1 > b {
        lemma_two_sum(freq, used, (n - 1) as nat, a, b);
    } else if n - 1 == a {
        lemma_unused_member(freq, used, (n - 1) as nat, b);
    } else {
        lemma_unused_member(freq, used, (n - 1) as nat, a);
    }
}

/// Sum of `s[lo..hi]`.
pub open spec fn sum_range(s: Seq<u32>, lo: int, hi: int) -> int
    decreases hi - lo,
{
    if hi <= lo {
        0
    } else {
        sum_range(s, lo, hi - 1) + s[hi - 1]
    }
}

proof fn lemma_sum_range_update(s: Seq<u32>, lo: int, hi: int, k: int, v: u32)
    requires
        lo <= k < hi <= s.len(),
        0 <= lo,
    ensures
        sum_range(s.update(k, v), lo, hi) == sum_range(s, lo, hi) - s[k] + v,
    decreases hi - lo,
{
    if hi - 1 > k {
        lemma_sum_range_update(s, lo, hi - 1, k, v);
    } else {
        lemma_sum_range_frame(s, s.update(k, v), lo, hi - 1);
    }
}

proof fn lemma_sum_range_frame(s: Seq<u32>, s2: Seq<u32>, lo: int, hi: int)
    requires
        0 <= lo,
        hi <= s.len(),
        hi <= s2.len(),
        forall|i: int| lo <= i < hi ==> s[i] == s2[i],
    ensures
        sum_range(s, lo, hi) == sum_range(s2, lo, hi),
    decreases hi - lo,
{
    if hi > lo {
        lemma_sum_range_frame(s, s2, lo, hi - 1);
    }
}

proof fn lemma_sum_range_member(s: Seq<u32>, lo: int, hi: int, k: int)
    requires
        0 <= lo <= k < hi <= s.len(),
    ensures
        s[k] <= sum_range(s, lo, hi),
        sum_range(s, lo, hi) >= 0,
    decreases hi - lo,
{
    lemma_sum_range_nonneg(s, lo, hi - 1);
    if hi - 1 > k {
        lemma_sum_range_member(s, lo, hi - 1, k);
    }
}

proof fn lemma_sum_range_nonneg(s: Seq<u32>, lo: int, hi: int)
    requires
        0 <= lo,
        hi <= s.len(),
    ensures
        sum_range(s, lo, hi) >= 0,
    decreases hi - lo,
{
    if hi > lo {
        lemma_sum_range_nonneg(s, lo, hi - 1);
    }
}

proof fn lemma_sum_range_split(s: Seq<u32>, lo: int, mid: int, hi: int)
    requires
        0 <= lo <= mid <= hi <= s.len(),
    ensures
        sum_range(s, lo, hi) == sum_range(s, lo, mid) + sum_range(s, mid, hi),
    decreases hi - mid,
{
    if hi > mid {
        lemma_sum_range_split(s, lo, mid, hi - 1);
    }
}

/// BITS counted from code lengths: for each length 1..=256 the number of
/// the first `k` symbols with that length.
pub open spec fn counted_bits(cl: Seq<(u8, u32)>, k: nat) -> Seq<u32>
    decreases k,
{
    if k == 0 {
        Seq::new(257, |i: int| 0u32)
    } else {
        let b = counted_bits(cl, (k - 1) as nat);
        let len = cl[k - 1].1;
        if 0 < len && len < 257 {
            b.update(len as int, (b[len as int] + 1) as u32)
        } else {
            b
        }
    }
}

/// The largest length in 1..=j with a non-zero count, or 0.
pub open spec fn last_nonzero(bits: Seq<u32>, j: int) -> int
    decreases j,
{
    if j <= 0 {
        0
    } else if bits[j] != 0 {
        j
    } else {
        last_nonzero(bits, j - 1)
    }
}

/// One redistribution of Figure K.3: two codes of length `i` become one of
/// length i - 1, and a code of length `j` becomes two of length j + 1.
pub open spec fn redistribute(bits: Seq<u32>, i: int, j: int) -> Seq<u32> {
    let b1 = bits.update(i, (bits[i] - 2) as u32);
    let b2 = b1.update(i - 1, (b1[i - 1] + 1) as u32);
    let b3 = b2.update(j + 1, (b2[j + 1] + 2) as u32);
    b3.update(j, (b3[j] - 1) as u32)
}

/// The counts after clearing length `i`: redistributions while codes
/// remain at that length and a shorter code is there to split.
pub open spec fn adjust_at(bits: Seq<u32>, i: int) -> Seq<u32>
    decreases bits[i],
{
    if i < 3 || i >= bits.len() || bits[i] < 2 {
        bits
    } else {
        let j = last_nonzero(bits, i - 2);
        if j <= 0 || j > i - 2 {
            bits
        } else {
            adjust_at(redistribute(bits, i, j), i)
        }
    }
}

/// The counts after clearing the lengths from `i` down to 17.
pub open spec fn adjust_from(bits: Seq<u32>, i: int) -> Seq<u32>
    decreases i,
{
    if i <= 16 {
        bits
    } else {
        adjust_from(adjust_at(bits, i), i - 1)
    }
}

/// The counts per code length of the Huffman tree for `symbols`: the
/// symbols' code lengths and the reserved code point's.
pub open spec fn all_counts(symbols: Seq<(u8, u32)>) -> Seq<u32> {
    let b = counted_bits(huffman_lengths(symbols), symbols.len());
    let r = reserved_length(symbols) as int;
    if 0 < r < 257 {
        b.update(r, (b[r] + 1) as u32)
    } else {
        b
    }
}

/// The counts without the reserved code point, which is taken from the
/// longest length of 1..=16 (T.81 Figure K.3).
pub open spec fn without_reserved(bits: Seq<u32>) -> Seq<u32> {
    let l = last_nonzero(bits, 16);
    if l > 0 {
        bits.update(l, (bits[l] - 1) as u32)
    } else {
        bits
    }
}

proof fn lemma_last_nonzero_range(bits: Seq<u32>, j: int)
    ensures
        j <= 0 ==> last_nonzero(bits, j) == 0,
        j > 0 ==> 0 <= last_nonzero(bits, j) <= j,
        last_nonzero(bits, j) > 0 ==> bits[last_nonzero(bits, j)] != 0,
        forall|k: int| last_nonzero(bits, j) < k <= j ==> bits[k] == 0,
    decreases j,
{
    if j > 0 && bits[j] == 0 {
        lemma_last_nonzero_range(bits, j - 1);
    }
}

/// Limit code lengths to 16 bits (T.81 Figure K.3, Adjust_BITS): while
/// codes longer than 16 bits remain, two codes of the longest length are
/// replaced by one code one bit shorter, and the longest code at least two
/// bits shorter is split in two. The number of codes and the weight of a
/// full tree are kept; in a full tree such a shorter code always exists and
/// the longest length always has an even number of codes.
fn adjust_bits(bits: &mut [u32; 257])
    requires
        sum_range(old(bits)@, 1, 257) <= 257,
        bits_weight(old(bits)@, 257) == pow2(600),
    ensures
        final(bits)@ == adjust_from(old(bits)@, 256),
        sum_range(final(bits)@, 1, 257) == sum_range(old(bits)@, 1, 257),
        bits_weight(final(bits)@, 257) == pow2(600),
        forall|k: int| 17 <= k < 257 ==> final(bits)@[k] == 0,
        final(bits)@[0] == old(bits)@[0],
{
    let ghost total = sum_range(bits@, 1, 257);
    let ghost target = adjust_from(bits@, 256);
    let mut i: usize = 256;
    while i > 16
        invariant
            16 <= i <= 256,
            sum_range(bits@, 1, 257) == total,
            total <= 257,
            bits_weight(bits@, 257) == pow2(600),
            bits@[0] == old(bits)@[0],
            forall|k: int| i < k < 257 ==> bits@[k] == 0,
            adjust_from(bits@, i as int) == target,
        decreases i,
    {
        let ghost level = adjust_at(bits@, i as int);
        while bits[i] > 0
            invariant
                17 <= i <= 256,
                sum_range(bits@, 1, 257) == total,
                total <= 257,
                bits_weight(bits@, 257) == pow2(600),
                bits@[0] == old(bits)@[0],
                forall|k: int| i < k < 257 ==> bits@[k] == 0,
                adjust_at(bits@, i as int) == level,
            decreases bits@[i as int],
        {
            proof {
                lemma_level_even(bits@, i as int);
                lemma_shorter_code(bits@, i as int);
            }
            let mut j = i - 2;
            while j > 0 && bits[j] == 0
                invariant
                    0 <= j <= i - 2,
                    i <= 256,
                    last_nonzero(bits@, j as int) == last_nonzero(bits@, i - 2),
                decreases j,
            {
                j = j - 1;
            }
            proof {
                lemma_sum_range_member(bits@, 1, 257, i as int);
                lemma_sum_range_member(bits@, 1, 257, (i - 1) as int);
                lemma_sum_range_member(bits@, 1, 257, j as int);
                lemma_sum_range_member(bits@, 1, 257, (j + 1) as int);
                assert(j as int == last_nonzero(bits@, i - 2));
                lemma_redistribute_weight(bits@, i as int, j as int);
            }
            let ghost b0 = bits@;
            bits[i] = bits[i] - 2;
            proof {
                lemma_sum_range_update(b0, 1, 257, i as int, (b0[i as int] - 2) as u32);
                lemma_sum_range_member(bits@, 1, 257, (i - 1) as int);
            }
            let ghost b1 = bits@;
            bits[i - 1] = bits[i - 1] + 1;
            proof {
                lemma_sum_range_update(b1, 1, 257, (i - 1) as int, (b1[i - 1] + 1) as u32);
                lemma_sum_range_member(bits@, 1, 257, (j + 1) as int);
            }
            let ghost b2 = bits@;
            bits[j + 1] = bits[j + 1] + 2;
            proof {
                lemma_sum_range_update(b2, 1, 257, (j + 1) as int, (b2[j + 1] + 2) as u32);
                assert(bits@[j as int] == b0[j as int]);
            }
            let ghost b3 = bits@;
            bits[j] = bits[j] - 1;
            proof {
                lemma_sum_range_update(b3, 1, 257, j as int, (b3[j as int] - 1) as u32);
                assert(bits@ =~= redistribute(b0, i as int, j as int));
            }
        }
        i = i - 1;
    }
}

/// Order by code length, then by symbol.
pub open spec fn length_order(a: (u8, u32), b: (u8, u32)) -> bool {
    a.1 < b.1 || (a.1 == b.1 && a.0 <= b.0)
}

/// Ascending order of bytes.
pub open spec fn byte_order(a: u8, b: u8) -> bool {
    a <= b
}

proof fn lemma_swap_multiset<A>(s: Seq<A>, i: int, j: int)
    requires
        0 <= i < s.len(),
        0 <= j < s.len(),
    ensures
        s.update(i, s[j]).update(j, s[i]).to_multiset() == s.to_multiset(),
{
    broadcast use vstd::seq_lib::to_multiset_update;
    broadcast use vstd::multiset::group_multiset_axioms;

    let s1 = s.update(i, s[j]);
    if i == j {
        assert(s.update(i, s[j]).update(j, s[i]) =~= s);
    } else {
        assert(s1[j] == s[j]);
        let ms = s.to_multiset();
        let a = s[i];
        let b = s[j];
        assert(s.contains(a));
        vstd::seq_lib::to_multiset_contains(s, a);
        assert(ms.count(a) > 0);
        let m1 = ms.insert(b).remove(a);
        assert(s1.to_multiset() == m1);
        let m2 = m1.insert(a).remove(b);
        assert(s1.update(j, s[i]).to_multiset() == m2);
        assert(m2 =~= ms);
    }
}

/// Code lengths ordered by length, then by symbol.
pub open spec fn length_sorted(cl: Seq<(u8, u32)>) -> Seq<(u8, u32)> {
    choose|v: Seq<(u8, u32)>|
        sorted_by(v, |a: (u8, u32), b: (u8, u32)| length_order(a, b)) && v.to_multiset() == cl.to_multiset()
}

/// Bytes in increasing order.
pub open spec fn bytes_sorted(s: Seq<u8>) -> Seq<u8> {
    choose|v: Seq<u8>| sorted_by(v, |a: u8, b: u8| byte_order(a, b)) && v.to_multiset() == s.to_multiset()
}

proof fn lemma_length_sorted_is(v: Seq<(u8, u32)>, cl: Seq<(u8, u32)>)
    requires
        sorted_by(v, |a: (u8, u32), b: (u8, u32)| length_order(a, b)),
        v.to_multiset() == cl.to_multiset(),
    ensures
        length_sorted(cl) == v,
{
    let leq = |a: (u8, u32), b: (u8, u32)| length_order(a, b);
    let w = length_sorted(cl);
    assert(sorted_by(w, leq) && w.to_multiset() == cl.to_multiset());
    assert(total_ordering(leq)) by {
        assert forall|a: (u8, u32), b: (u8, u32)| #[trigger] leq(a, b) && leq(b, a) implies a == b by {
            assert(a.0 == b.0 && a.1 == b.1);
        }
    }
    lemma_sorted_unique(w, v, leq);
}

proof fn lemma_bytes_sorted_is(v: Seq<u8>, s: Seq<u8>)
    requires
        sorted_by(v, |a: u8, b: u8| byte_order(a, b)),
        v.to_multiset() == s.to_multiset(),
    ensures
        bytes_sorted(s) == v,
{
    let leq = |a: u8, b: u8| byte_order(a, b);
    let w = bytes_sorted(s);
    assert(sorted_by(w, leq) && w.to_multiset() == s.to_multiset());
    assert(total_ordering(leq));
    lemma_sorted_unique(w, v, leq);
}

proof fn lemma_bytes_sorted_props(x: Seq<u8>)
    ensures
        sorted_by(bytes_sorted(x), |a: u8, b: u8| byte_order(a, b)),
        bytes_sorted(x).to_multiset() == x.to_multiset(),
{
    let leq = |a: u8, b: u8| byte_order(a, b);
    assert(total_ordering(leq));
    x.lemma_sort_by_ensures(leq);
    let w = x.sort_by(leq);
    assert(sorted_by(w, leq) && w.to_multiset() == x.to_multiset());
}

proof fn lemma_length_sorted_props(cl: Seq<(u8, u32)>)
    ensures
        sorted_by(length_sorted(cl), |a: (u8, u32), b: (u8, u32)| length_order(a, b)),
        length_sorted(cl).to_multiset() == cl.to_multiset(),
{
    let leq = |a: (u8, u32), b: (u8, u32)| length_order(a, b);
    assert(total_ordering(leq)) by {
        assert forall|a: (u8, u32), b: (u8, u32)| #[trigger] leq(a, b) && leq(b, a) implies a == b by {
            assert(a.0 == b.0 && a.1 == b.1);
        }
    }
    cl.lemma_sort_by_ensures(leq);
    let w = cl.sort_by(leq);
    assert(sorted_by(w, leq) && w.to_multiset() == cl.to_multiset());
}

/// A permutation of a sequence without repeated elements has none, and
/// holds the same elements.
proof fn lemma_perm_no_duplicates<A>(x: Seq<A>, y: Seq<A>)
    requires
        x.no_duplicates(),
        y.to_multiset() == x.to_multiset(),
    ensures
        y.no_duplicates(),
        forall|k: int| 0 <= k < y.len() ==> x.contains(#[trigger] y[k]),
{
    broadcast use vstd::seq_lib::group_to_multiset_ensures;

    x.lemma_multiset_has_no_duplicates();
    y.lemma_multiset_has_no_duplicates_conv();
    assert forall|k: int| 0 <= k < y.len() implies x.contains(#[trigger] y[k]) by {
        assert(y.contains(y[k]));
        assert(y.to_multiset().count(y[k]) > 0);
    }
}

/// The non-zero symbols are listed in increasing order.
proof fn lemma_nonzero_symbols_increasing(freq: Seq<u32>, n: nat)
    requires
        n <= 256,
    ensures
        forall|i: int, j: int|
            0 <= i < j < nonzero_symbols(freq, n).len() ==> nonzero_symbols(freq, n)[i].0 < nonzero_symbols(freq, n)[j].0,
        forall|i: int| 0 <= i < nonzero_symbols(freq, n).len() ==> nonzero_symbols(freq, n)[i].0 < n,
        nonzero_symbols(freq, n).len() <= n,
    decreases n,
{
    if n > 0 {
        lemma_nonzero_symbols_increasing(freq, (n - 1) as nat);
        let prev = nonzero_symbols(freq, (n - 1) as nat);
        if n - 1 < freq.len() && freq[n - 1] > 0 {
            let cur = nonzero_symbols(freq, n);
            assert(cur == prev.push(((n - 1) as u8, freq[n - 1])));
            assert forall|i: int, j: int| 0 <= i < j < cur.len() implies cur[i].0 < cur[j].0 by {
                if j < prev.len() {
                    assert(cur[i] == prev[i] && cur[j] == prev[j]);
                } else {
                    assert(cur[i] == prev[i]);
                }
            }
        }
    }
}

/// HUFFVAL never lists a symbol twice when the selected symbols are
/// distinct: its groups are permutations of disjoint runs of them.
proof fn lemma_assigned_distinct(bits: Seq<u32>, sel: Seq<u8>, len: int, idx: int)
    requires
        sel.no_duplicates(),
        0 <= idx <= sel.len(),
    ensures
        assigned(bits, sel, len, idx).no_duplicates(),
        forall|k: int|
            0 <= k < assigned(bits, sel, len, idx).len() ==> sel.subrange(idx, sel.len() as int).contains(
                #[trigger] assigned(bits, sel, len, idx)[k],
            ),
    decreases 17 - len,
{
    if 1 <= len <= 16 {
        let end = if sel.len() < idx + bits[len] {
            sel.len() as int
        } else {
            idx + bits[len]
        };
        let x = sel.subrange(idx, end);
        let y = bytes_sorted(x);
        let rest = assigned(bits, sel, len + 1, end);
        lemma_assigned_distinct(bits, sel, len + 1, end);
        lemma_bytes_sorted_props(x);
        assert(x.no_duplicates());
        lemma_perm_no_duplicates(x, y);
        let whole = sel.subrange(idx, sel.len() as int);
        assert forall|i: int, j: int| 0 <= i < y.len() && 0 <= j < rest.len() implies y[i] != rest[j] by {
            assert(x.contains(y[i]));
            let ki = choose|ki: int| 0 <= ki < x.len() && x[ki] == y[i];
            assert(sel.subrange(end, sel.len() as int).contains(rest[j]));
            let kj = choose|kj: int| 0 <= kj < sel.len() - end && sel.subrange(end, sel.len() as int)[kj] == rest[j];
            assert(x[ki] == sel[idx + ki]);
            assert(sel.subrange(end, sel.len() as int)[kj] == sel[end + kj]);
            assert(idx + ki != end + kj);
        }
        vstd::seq_lib::lemma_no_dup_in_concat(y, rest);
        assert(assigned(bits, sel, len, idx) == y + rest);
        assert forall|k: int| 0 <= k < (y + rest).len() implies whole.contains(#[trigger] (y + rest)[k]) by {
            if k < y.len() {
                assert(x.contains(y[k]));
                let ki = choose|ki: int| 0 <= ki < x.len() && x[ki] == y[k];
                assert(whole[ki] == x[ki]);
            } else {
                let r = rest[k - y.len()];
                assert((y + rest)[k] == r);
                assert(sel.subrange(end, sel.len() as int).contains(r));
                let kj = choose|kj: int| 0 <= kj < sel.len() - end && sel.subrange(end, sel.len() as int)[kj] == r;
                assert(whole[end - idx + kj] == r);
            }
        }
    }
}

/// The values of a table built from more than one used symbol are distinct.
proof fn lemma_table_values_distinct(freq: Seq<u32>, max_symbol: nat)
    requires
        nonzero_symbols(freq, max_symbol + 1).len() >= 2,
        max_symbol <= 255,
    ensures
        table_values(freq, max_symbol).no_duplicates(),
{
    let used = nonzero_symbols(freq, max_symbol + 1);
    let cl = huffman_lengths(used);
    let sorted = length_sorted(cl);
    lemma_nonzero_symbols_increasing(freq, max_symbol + 1);
    assert(cl.no_duplicates()) by {
        assert forall|i: int, j: int| 0 <= i < cl.len() && 0 <= j < cl.len() && i != j implies cl[i] != cl[j] by {
            assert(cl[i].0 == used[i].0 && cl[j].0 == used[j].0);
            if i < j {
                assert(used[i].0 < used[j].0);
            } else {
                assert(used[j].0 < used[i].0);
            }
        }
    }
    lemma_length_sorted_props(cl);
    lemma_perm_no_duplicates(cl, sorted);
    assert(sorted.len() == cl.len()) by {
        broadcast use vstd::seq_lib::group_to_multiset_ensures;

        assert(sorted.to_multiset().len() == cl.to_multiset().len());
    }
    let b = limited_counts(used);
    lemma_counted_len(cl, used.len());
    assert(all_counts(used).len() == 257);
    lemma_adjust_len(all_counts(used), 256);
    lemma_last_nonzero_range(adjust_from(all_counts(used), 256), 16);
    assert(without_reserved(adjust_from(all_counts(used), 256)).len() == 257);
    assert(b.len() == 33);
    lemma_sum_range_nonneg(b, 1, 17);
    let total = sum_range(b, 1, 17);
    let take = if total < sorted.len() {
        total
    } else {
        sorted.len() as int
    };
    let sel = Seq::new(take as nat, |k: int| sorted[k].0);
    assert(sel.no_duplicates()) by {
        assert forall|i: int, j: int| 0 <= i < sel.len() && 0 <= j < sel.len() && i != j implies sel[i] != sel[j] by {
            assert(cl.contains(sorted[i]) && cl.contains(sorted[j]));
            let ki = choose|ki: int| 0 <= ki < cl.len() && cl[ki] == sorted[i];
            let kj = choose|kj: int| 0 <= kj < cl.len() && cl[kj] == sorted[j];
            assert(cl[ki].0 == used[ki].0 && cl[kj].0 == used[kj].0);
            if ki < kj {
                assert(used[ki].0 < used[kj].0);
            } else if kj < ki {
                assert(used[kj].0 < used[ki].0);
            } else {
                assert(sorted[i] == sorted[j]);
            }
        }
    }
    lemma_assigned_distinct(b, sel, 1, 0);
}

proof fn lemma_adjust_at_len(bits: Seq<u32>, i: int)
    ensures
        adjust_at(bits, i).len() == bits.len(),
    decreases bits[i],
{
    if !(i < 3 || i >= bits.len() || bits[i] < 2) {
        let j = last_nonzero(bits, i - 2);
        if !(j <= 0 || j > i - 2) {
            lemma_adjust_at_len(redistribute(bits, i, j), i);
        }
    }
}

proof fn lemma_adjust_len(bits: Seq<u32>, i: int)
    ensures
        adjust_from(bits, i).len() == bits.len(),
    decreases i,
{
    if i > 16 {
        lemma_adjust_at_len(bits, i);
        lemma_adjust_len(adjust_at(bits, i), i - 1);
    }
}

/// HUFFVAL from the counts `bits` and the selected symbols (T.81 Figure
/// K.4), from length `len` on, `idx` symbols being placed: each length
/// takes its count of the next symbols, as far as there are any, in
/// increasing order.
pub open spec fn assigned(bits: Seq<u32>, selected: Seq<u8>, len: int, idx: int) -> Seq<u8>
    decreases 17 - len,
{
    if len < 1 || len > 16 {
        Seq::empty()
    } else {
        let end = if selected.len() < idx + bits[len] {
            selected.len() as int
        } else {
            idx + bits[len]
        };
        bytes_sorted(selected.subrange(idx, end)) + assigned(bits, selected, len + 1, end)
    }
}

/// Sort pairs (symbol, length) by length, then symbol (selection sort).
fn sort_by_length(v: &mut Vec<(u8, u32)>)
    ensures
        final(v)@.to_multiset() == old(v)@.to_multiset(),
        final(v)@.len() == old(v)@.len(),
        sorted_by(final(v)@, |a: (u8, u32), b: (u8, u32)| length_order(a, b)),
{
    let n = v.len();
    let mut i: usize = 0;
    while i < n
        invariant
            i <= n == v@.len(),
            v@.to_multiset() == old(v)@.to_multiset(),
            forall|a: int, b: int| 0 <= a < b < i ==> length_order(v@[a], v@[b]),
            forall|a: int, b: int| 0 <= a < i <= b < n ==> length_order(v@[a], v@[b]),
        decreases n - i,
    {
        let mut m = i;
        let mut k = i + 1;
        while k < n
            invariant
                i <= m < n,
                i < k <= n == v@.len(),
                forall|b: int| i <= b < k ==> length_order(v@[m as int], v@[b]),
            decreases n - k,
        {
            let (ks, kl) = v[k];
            let (ms, ml) = v[m];
            if kl < ml || (kl == ml && ks < ms) {
                m = k;
            }
            k = k + 1;
        }
        let a = v[i];
        let b = v[m];
        let ghost v0 = v@;
        v.set(i, b);
        v.set(m, a);
        proof {
            lemma_swap_multiset(v0, i as int, m as int);
            assert(v@ == v0.update(i as int, v0[m as int]).update(m as int, v0[i as int]));
        }
        i = i + 1;
    }
}

/// Sort bytes in ascending order (selection sort).
fn sort_bytes(v: &mut Vec<u8>)
    ensures
        final(v)@.to_multiset() == old(v)@.to_multiset(),
        final(v)@.len() == old(v)@.len(),
        sorted_by(final(v)@, |a: u8, b: u8| byte_order(a, b)),
{
    let n = v.len();
    let mut i: usize = 0;
    while i < n
        invariant
            i <= n == v@.len(),
            v@.to_multiset() == old(v)@.to_multiset(),
            forall|a: int, b: int| 0 <= a < b < i ==> v@[a] <= v@[b],
            forall|a: int, b: int| 0 <= a < i <= b < n ==> v@[a] <= v@[b],
        decreases n - i,
    {
        let mut m = i;
        let mut k = i + 1;
        while k < n
            invariant
                i <= m < n,
                i < k <= n == v@.len(),
                forall|b: int| i <= b < k ==> v@[m as int] <= v@[b],
            decreases n - k,
        {
            if v[k] < v[m] {
                m = k;
            }
            k = k + 1;
        }
        let a = v[i];
        let b = v[m];
        let ghost v0 = v@;
        v.set(i, b);
        v.set(m, a);
        proof {
            lemma_swap_multiset(v0, i as int, m as int);
            assert(v@ == v0.update(i as int, v0[m as int]).update(m as int, v0[i as int]));
        }
        i = i + 1;
    }
}

/// BITS with a single code of length 1.
pub open spec fn single_code_bits() -> Seq<u8> {
    Seq::new(16, |i: int| if i == 0 { 1u8 } else { 0u8 })
}

/// What a table built from the counts `freq` of symbols 0..=max_symbol
/// is: its BITS and HUFFVAL lists are `table_bits` and `table_values`, and
/// its code tables are their canonical codes. It follows that every used
/// symbol, and no other, gets a code of 1 to 16 bits (a table with no used
/// symbol has a single one-bit code for symbol 0), that HUFFVAL lists each
/// symbol once, and that the code lengths satisfy the Kraft inequality
/// strictly: one code point is left unused.
#[verifier::opaque]
pub open spec fn built_from(t: HuffmanTable, freq: Seq<u32>, max_symbol: nat) -> bool {
    let used = nonzero_symbols(freq, max_symbol + 1);
    &&& table_consistent(t)
    &&& forall|s: int| 0 <= s < 256 ==> #[trigger] t.ehufsi@[s] <= 16
    &&& used.len() == 0 ==> t.values@ == seq![0u8] && t.bits@ == single_code_bits()
    &&& used.len() == 1 ==> t.values@ == seq![used[0].0] && t.bits@ == single_code_bits()
    &&& used.len() > 0 ==> forall|k: int| 0 <= k < t.values@.len() ==> occurs(freq, max_symbol + 1, #[trigger] t.values@[k])
    &&& used.len() > 0 ==> forall|s: int| 0 <= s < 256 && #[trigger] t.ehufsi@[s] != 0 ==> occurs(freq, max_symbol + 1, s as u8)
    &&& forall|s: u8| #[trigger] occurs(freq, max_symbol + 1, s) ==> 1 <= t.ehufsi@[s as int] <= 16
    &&& t.bits@ == table_bits(freq, max_symbol)
    &&& t.values@ == table_values(freq, max_symbol)
    &&& t.values@.no_duplicates()
    &&& kraft(huffsizes(t.bits@, 16)) < pow2(16)
}

proof fn lemma_single_code_kraft(m: nat)
    requires
        1 <= m <= 16,
    ensures
        short_weight(single_code_bits(), m) == pow2(15),
    decreases m,
{
    let b = single_code_bits();
    if m == 1 {
        assert(b[0] == 1u8);
        assert(short_weight(b, 0) == 0);
    } else {
        lemma_single_code_kraft((m - 1) as nat);
        assert(b[m - 1] == 0u8);
    }
}

/// The codes of a table built from symbol counts are prefix-free: every
/// code fits its length, and the code of one symbol is never a prefix of
/// the code of another.
pub proof fn lemma_built_codes_prefix_free(t: HuffmanTable, freq: Seq<u32>, max_symbol: nat, s1: int, s2: int)
    requires
        built_from(t, freq, max_symbol),
        0 <= s1 < 256,
        0 <= s2 < 256,
        s1 != s2,
        0 < t.ehufsi@[s1] <= t.ehufsi@[s2],
    ensures
        t.ehufco@[s1] < pow2(t.ehufsi@[s1] as nat),
        t.ehufco@[s2] < pow2(t.ehufsi@[s2] as nat),
        bits_of(t.ehufco@[s2] as nat, t.ehufsi@[s2] as nat).take(t.ehufsi@[s1] as int) != bits_of(
            t.ehufco@[s1] as nat,
            t.ehufsi@[s1] as nat,
        ),
{
    reveal(built_from);
    lemma_codes_prefix_free(t, s1, s2);
}

/// No code of a table built from symbol counts consists of 1-bits only:
/// that code point is reserved (T.81 §K.2), so the 1-bits that pad the end
/// of a scan never read as a code.
pub proof fn lemma_built_codes_not_all_ones(t: HuffmanTable, freq: Seq<u32>, max_symbol: nat, s: int)
    requires
        built_from(t, freq, max_symbol),
        0 <= s < 256,
        0 < t.ehufsi@[s],
    ensures
        t.ehufco@[s] + 1 < pow2(t.ehufsi@[s] as nat),
{
    reveal(built_from);
    let sizes = huffsizes(t.bits@, 16);
    let codes = canonical_codes(sizes);
    lemma_huffsizes_props(t.bits@, 16);
    lemma_canonical_len(sizes);
    let n = if sizes.len() < t.values@.len() {
        sizes.len()
    } else {
        t.values@.len()
    };
    lemma_code_tables_listed(codes, sizes, t.values@, n, s);
    let k = choose|k: int| 0 <= k < n && t.values@[k] == s;
    assert forall|i: int, j: int| 0 <= i < j < n implies t.values@[i] != t.values@[j] by {
        assert(t.values@.no_duplicates());
    }
    lemma_code_tables_entry(codes, sizes, t.values@, n, k);
    lemma_canonical_not_all_ones(sizes, k);
}

/// The counts per code length 0..=32 of the Huffman procedure for
/// `symbols`: its tree with the reserved code point, limited to 16 bits,
/// and the reserved code point then taken out.
pub open spec fn limited_counts(symbols: Seq<(u8, u32)>) -> Seq<u32> {
    without_reserved(adjust_from(all_counts(symbols), 256)).subrange(0, 33)
}

/// The BITS list of the table built from the counts `freq` of symbols
/// 0..=max_symbol: a single one-bit code for at most one used symbol,
/// otherwise the limited counts of the Huffman code lengths.
pub open spec fn table_bits(freq: Seq<u32>, max_symbol: nat) -> Seq<u8> {
    let used = nonzero_symbols(freq, max_symbol + 1);
    if used.len() <= 1 {
        single_code_bits()
    } else {
        let b = limited_counts(used);
        Seq::new(16, |i: int| b[i + 1] as u8)
    }
}

/// The HUFFVAL list of the table built from the counts `freq`: symbol 0
/// when no symbol is used, the used symbol when there is one, otherwise the
/// used symbols ordered by code length and value, as many as BITS counts,
/// each length's group in increasing order.
pub open spec fn table_values(freq: Seq<u32>, max_symbol: nat) -> Seq<u8> {
    let used = nonzero_symbols(freq, max_symbol + 1);
    if used.len() == 0 {
        seq![0u8]
    } else if used.len() == 1 {
        seq![used[0].0]
    } else {
        let b = limited_counts(used);
        let sorted = length_sorted(huffman_lengths(used));
        let total = sum_range(b, 1, 17);
        let take = if total < sorted.len() {
            total
        } else {
            sorted.len() as int
        };
        assigned(b, Seq::new(take as nat, |k: int| sorted[k].0), 1, 0)
    }
}

/// A used symbol is one of the listed non-zero symbols.
proof fn lemma_nonzero_symbols_member(freq: Seq<u32>, n: nat, s: u8)
    requires
        s < n,
        s < freq.len(),
        freq[s as int] > 0,
    ensures
        exists|j: int| 0 <= j < nonzero_symbols(freq, n).len() && (#[trigger] nonzero_symbols(freq, n)[j]).0 == s,
    decreases n,
{
    if s < n - 1 {
        lemma_nonzero_symbols_member(freq, (n - 1) as nat, s);
        let j = choose|j: int| 0 <= j < nonzero_symbols(freq, (n - 1) as nat).len() && (#[trigger] nonzero_symbols(freq, (n - 1) as nat)[j]).0 == s;
        assert(nonzero_symbols(freq, n)[j] == nonzero_symbols(freq, (n - 1) as nat)[j]);
    } else {
        let j = nonzero_symbols(freq, (n - 1) as nat).len() as int;
        assert(nonzero_symbols(freq, n)[j].0 == s);
    }
}

/// Build an optimised Huffman table from symbol frequencies (T.81 §K.2):
/// code lengths from the Huffman procedure with a reserved code point, all
/// counted per length, limited to 16 bits, the reserved code point then
/// taken out of the longest length (Figure K.3), symbols sorted by length
/// then value, then the canonical encoder tables. Every used symbol gets a
/// code, and the code of 1-bits only of the longest length stays unused.
///
/// Only the symbols `0..=max_symbol` with a non-zero count are listed. With
/// no such symbol the table codes symbol 0 alone; with one, that symbol
/// alone, each with a 1-bit code.
pub fn build_table(freq: &[u32], max_symbol: usize) -> (t: HuffmanTable)
    requires
        max_symbol <= 255,
    ensures
        built_from(t, freq@, max_symbol as nat),
{
    reveal(built_from);
    let ghost n_sym = (max_symbol + 1) as nat;
    let symbols = collect_symbols(freq, max_symbol);
    if symbols.len() == 0 {
        let t = build_empty_table();
        proof {
            lemma_consistent_code_lengths(t);
            lemma_kraft_huffsizes(t.bits@, 16);
            lemma_single_code_kraft(16);
            lemma_pow2_strictly_increases(15, 16);
            assert forall|s: u8| #[trigger] occurs(freq@, n_sym, s) implies 1 <= t.ehufsi@[s as int] <= 16 by {
                lemma_nonzero_symbols_member(freq@, n_sym, s);
            }
        }
        return t;
    }
    if symbols.len() == 1 {
        let sym = symbols[0].0;
        let mut bits = [0u8; 16];
        bits[0] = 1;
        let values = vec![sym];
        let (ehufco, ehufsi) = generate_encoder_tables(&bits, values.as_slice());
        let t = HuffmanTable { bits, values, ehufco, ehufsi };
        proof {
            assert(bits@ =~= single_code_bits());
            assert(t.values@ =~= seq![sym]);
            lemma_consistent_code_lengths(t);
            lemma_kraft_huffsizes(t.bits@, 16);
            lemma_single_code_kraft(16);
            lemma_pow2_strictly_increases(15, 16);
            lemma_single_code_sizes(16);
            assert forall|s: int| 0 <= s < 256 && #[trigger] t.ehufsi@[s] != 0 implies occurs(freq@, n_sym, s as u8) by {
                lemma_coded_symbols_listed(t, s);
            }
            assert forall|s: u8| #[trigger] occurs(freq@, n_sym, s) implies 1 <= t.ehufsi@[s as int] <= 16 by {
                lemma_nonzero_symbols_member(freq@, n_sym, s);
                lemma_listed_symbols_coded(t, 0);
            }
        }
        return t;
    }
    let (code_lengths, reserved) = compute_code_lengths(symbols.as_slice());
    let ghost cl0 = code_lengths@;
    let ghost n = symbols@.len();
    let mut bits = [0u32; 257];
    let mut idx: usize = 0;
    proof {
        assert(bits@ =~= counted_bits(cl0, 0));
        lemma_sum_range_zero(bits@, 1, 257);
    }
    while idx < code_lengths.len()
        invariant
            idx <= code_lengths@.len() <= 256,
            code_lengths@ == cl0,
            cl0.len() == symbols@.len(),
            forall|k: int| 0 <= k < cl0.len() ==> 1 <= (#[trigger] cl0[k]).1 <= symbols@.len(),
            sum_range(bits@, 1, 257) == idx,
            bits@ == counted_bits(cl0, idx as nat),
        decreases code_lengths@.len() - idx,
    {
        let len = code_lengths[idx].1;
        proof {
            assert(cl0[idx as int].1 == len);
        }
        if len > 0 && (len as usize) < bits.len() {
            proof {
                lemma_sum_range_member(bits@, 1, 257, len as int);
            }
            let ghost b0 = bits@;
            bits[len as usize] = bits[len as usize] + 1;
            proof {
                lemma_sum_range_update(b0, 1, 257, len as int, (b0[len as int] + 1) as u32);
            }
        }
        idx = idx + 1;
    }
    proof {
        let p = merged(symbols@, n).2;
        let root = 2 * n as int;
        lemma_counted_weight(cl0, n);
        lemma_leaf_weight_lengths(symbols@, n);
        lemma_tree_depth_bound(p, root, n as int);
        assert(leaf_weight(p, root, n + 1) == leaf_weight(p, root, n) + node_weight(p, root, n as int));
        assert(bits@[reserved as int] <= n);
    }
    // The reserved code point (T.81 §K.2).
    let ghost counted = bits@;
    bits[reserved as usize] = bits[reserved as usize] + 1;
    proof {
        lemma_bits_weight_update(counted, 257, reserved as int);
        lemma_sum_range_update(counted, 1, 257, reserved as int, (counted[reserved as int] + 1) as u32);
        assert(bits@ == all_counts(symbols@));
    }
    adjust_bits(&mut bits);
    let ghost adjusted = bits@;
    // Take the reserved code point out of the longest length.
    let mut longest: usize = 16;
    while longest > 0 && bits[longest] == 0
        invariant
            0 <= longest <= 16,
            last_nonzero(bits@, longest as int) == last_nonzero(bits@, 16),
        decreases longest,
    {
        longest = longest - 1;
    }
    proof {
        lemma_removed_weight(adjusted);
        assert(longest as int == last_nonzero(adjusted, 16));
    }
    bits[longest] = bits[longest] - 1;
    proof {
        assert(bits@ == without_reserved(adjusted));
        lemma_sum_range_split(adjusted, 1, 17, 257);
        lemma_sum_range_zero(adjusted, 17, 257);
        lemma_sum_range_update(adjusted, 1, 17, longest as int, (adjusted[longest as int] - 1) as u32);
        assert(sum_range(bits@, 1, 17) == n);
    }
    let mut lim = [0u32; 33];
    let mut m: usize = 0;
    while m < 33
        invariant
            m <= 33,
            forall|k: int| 0 <= k < m ==> lim@[k] == bits@[k],
        decreases 33 - m,
    {
        lim[m] = bits[m];
        m = m + 1;
    }
    proof {
        assert(lim@ =~= bits@.subrange(0, 33));
        assert(lim@ == limited_counts(symbols@));
        lemma_sum_range_frame(lim@, bits@, 1, 17);
        lemma_sum_range_split(lim@, 1, 17, 33);
        lemma_sum_range_zero(lim@, 17, 33);
        assert forall|k: int| 1 <= k < 17 implies #[trigger] lim@[k] <= 255 by {
            lemma_limited_small(adjusted, k);
        }
    }
    let mut sorted_symbols = code_lengths;
    sort_by_length(&mut sorted_symbols);
    let mut total_codes: u32 = 0;
    let mut l: usize = 1;
    while l <= 16
        invariant
            1 <= l <= 17,
            total_codes == sum_range(lim@, 1, l as int),
            sum_range(lim@, 1, 33) <= 256,
        decreases 17 - l,
    {
        proof {
            lemma_sum_range_split(lim@, 1, l as int, 33);
            lemma_sum_range_member(lim@, l as int, 33, l as int);
            lemma_sum_range_nonneg(lim@, 1, l as int);
            lemma_sum_range_split(lim@, 1, l as int + 1, 33);
            lemma_sum_range_nonneg(lim@, l as int + 1, 33);
        }
        total_codes = total_codes + lim[l];
        l = l + 1;
    }
    let take = if (total_codes as usize) < sorted_symbols.len() {
        total_codes as usize
    } else {
        sorted_symbols.len()
    };
    let mut selected: Vec<u8> = Vec::with_capacity(take);
    let mut i: usize = 0;
    while i < take
        invariant
            i <= take <= sorted_symbols@.len(),
            sorted_symbols@.to_multiset() == cl0.to_multiset(),
            cl0.len() == symbols@.len(),
            forall|k: int| 0 <= k < cl0.len() ==> (#[trigger] cl0[k]).0 == symbols@[k].0,
            forall|k: int|
                0 <= k < symbols@.len() ==> occurs(freq@, (max_symbol + 1) as nat, #[trigger] symbols@[k].0),
            selected@.len() == i,
            forall|k: int|
                0 <= k < i ==> occurs(freq@, (max_symbol + 1) as nat, #[trigger] selected@[k]),
            forall|k: int| 0 <= k < i ==> #[trigger] selected@[k] == sorted_symbols@[k].0,
        decreases take - i,
    {
        let x = sorted_symbols[i];
        proof {
            broadcast use vstd::seq_lib::group_to_multiset_ensures;

            assert(sorted_symbols@.contains(x));
            assert(sorted_symbols@.to_multiset().count(x) > 0);
            assert(cl0.contains(x));
            let w = choose|w: int| 0 <= w < cl0.len() && cl0[w] == x;
            assert(cl0[w].0 == symbols@[w].0);
        }
        selected.push(x.0);
        i = i + 1;
    }
    let huffval = assign_values(&lim, &selected);
    let mut bits_out = [0u8; 16];
    let mut m: usize = 1;
    while m <= 16
        invariant
            1 <= m <= 17,
            forall|k: int| 0 <= k < m - 1 ==> bits_out@[k] == lim@[k + 1] as u8,
        decreases 17 - m,
    {
        bits_out[m - 1] = lim[m] as u8;
        m = m + 1;
    }
    let (ehufco, ehufsi) = generate_encoder_tables(&bits_out, huffval.as_slice());
    let t = HuffmanTable { bits: bits_out, values: huffval, ehufco, ehufsi };
    proof {
        lemma_consistent_code_lengths(t);
        assert forall|s: int| 0 <= s < 256 && #[trigger] t.ehufsi@[s] != 0 implies occurs(freq@, n_sym, s as u8) by {
            lemma_coded_symbols_listed(t, s);
        }
        let lb = limited_counts(symbols@);
        assert(t.bits@ =~= Seq::new(16, |i: int| lb[i + 1] as u8));
        lemma_table_values_distinct(freq@, max_symbol as nat);
        assert forall|k: int| 0 <= k < 16 implies t.bits@[k] <= #[trigger] without_reserved(adjusted)[k + 1] by {
            assert(lim@[k + 1] <= 255);
            assert(t.bits@[k] == lim@[k + 1] as u8);
        }
        lemma_table_kraft(adjusted, t.bits@);
        lemma_length_sorted_is(sorted_symbols@, cl0);
        let sorted = length_sorted(huffman_lengths(symbols@));
        assert(selected@ =~= Seq::new(take as nat, |k: int| sorted[k].0));
        lemma_all_symbols_coded(freq@, n_sym, symbols@, cl0, sorted_symbols@, lim@, selected@, t);
    }
    t
}

/// Every used symbol is counted in BITS, selected, listed and coded.
proof fn lemma_all_symbols_coded(
    freq: Seq<u32>,
    n_sym: nat,
    symbols: Seq<(u8, u32)>,
    cl0: Seq<(u8, u32)>,
    sorted: Seq<(u8, u32)>,
    bits: Seq<u32>,
    selected: Seq<u8>,
    t: HuffmanTable,
)
    requires
        symbols == nonzero_symbols(freq, n_sym),
        2 <= symbols.len() <= 256,
        cl0.len() == symbols.len(),
        forall|k: int| 0 <= k < cl0.len() ==> (#[trigger] cl0[k]).0 == symbols[k].0,
        sorted.to_multiset() == cl0.to_multiset(),
        sorted.len() == cl0.len(),
        bits.len() == 33,
        sum_range(bits, 1, 17) == symbols.len(),
        forall|k: int| 1 <= k < 17 ==> #[trigger] bits[k] <= 255,
        selected.len() == symbols.len(),
        forall|k: int| 0 <= k < selected.len() ==> #[trigger] selected[k] == sorted[k].0,
        t.values@.len() == selected.len(),
        forall|k: int| 0 <= k < t.values@.len() ==> t.values@.contains(#[trigger] selected[k]),
        forall|k: int| 0 <= k < 16 ==> t.bits@[k] == bits[k + 1] as u8,
        table_consistent(t),
        forall|s: int| 0 <= s < 256 ==> #[trigger] t.ehufsi@[s] <= 16,
    ensures
        forall|s: u8| #[trigger] occurs(freq, n_sym, s) ==> 1 <= t.ehufsi@[s as int] <= 16,
{
    assert forall|i: int| 0 <= i < 16 implies t.bits@[i] as int == #[trigger] bits[i + 1] as int by {
        assert(bits[i + 1] <= 255);
    }
    lemma_huffsizes_len(t.bits@, bits, 16);
    assert forall|s: u8| #[trigger] occurs(freq, n_sym, s) implies 1 <= t.ehufsi@[s as int] <= 16 by {
        broadcast use vstd::seq_lib::group_to_multiset_ensures;

        lemma_nonzero_symbols_member(freq, n_sym, s);
        let j = choose|j: int| 0 <= j < symbols.len() && (#[trigger] symbols[j]).0 == s;
        assert(cl0[j].0 == s);
        assert(cl0.contains(cl0[j]));
        assert(sorted.to_multiset().count(cl0[j]) > 0);
        assert(sorted.contains(cl0[j]));
        let w = choose|w: int| 0 <= w < sorted.len() && sorted[w] == cl0[j];
        assert(selected[w] == s);
        assert(t.values@.contains(selected[w]));
        let v = choose|v: int| 0 <= v < t.values@.len() && t.values@[v] == s;
        lemma_listed_symbols_coded(t, v);
    }
}

/// The single-code BITS list gives one length.
proof fn lemma_single_code_sizes(n: nat)
    requires
        1 <= n <= 16,
    ensures
        huffsizes(single_code_bits(), n).len() == 1,
    decreases n,
{
    let b = single_code_bits();
    assert(b[n - 1] == if n == 1 { 1u8 } else { 0u8 });
    let tail = Seq::new(b[n - 1] as nat, |j: int| n as u8);
    assert(huffsizes(b, n) == huffsizes(b, (n - 1) as nat) + tail);
    assert(tail.len() == if n == 1 { 1nat } else { 0nat });
    if n > 1 {
        lemma_single_code_sizes((n - 1) as nat);
    } else {
        assert(huffsizes(b, 0).len() == 0);
    }
}

proof fn lemma_sum_range_zero(s: Seq<u32>, lo: int, hi: int)
    requires
        0 <= lo,
        hi <= s.len(),
        forall|i: int| lo <= i < hi ==> s[i] == 0,
    ensures
        sum_range(s, lo, hi) == 0,
    decreases hi - lo,
{
    if hi > lo {
        lemma_sum_range_zero(s, lo, hi - 1);
    }
}

/// Give each code length its number of symbols, taken in order from
/// `selected`, each group sorted by symbol value (T.81 Figure K.4).
///
/// The first min(|selected|, bits[1] + ... + bits[16]) symbols are placed.
fn assign_values(bits: &[u32; 33], selected: &Vec<u8>) -> (huffval: Vec<u8>)
    ensures
        huffval@ == assigned(bits@, selected@, 1, 0),
        forall|k: int| 0 <= k < huffval@.len() ==> selected@.contains(#[trigger] huffval@[k]),
        huffval@.len() == if selected@.len() < sum_range(bits@, 1, 17) {
            selected@.len() as int
        } else {
            sum_range(bits@, 1, 17)
        },
        forall|k: int| 0 <= k < huffval@.len() ==> huffval@.contains(#[trigger] selected@[k]),
{
    let mut huffval: Vec<u8> = Vec::new();
    let mut idx: usize = 0;
    let mut len: usize = 1;
    while len <= 16
        invariant
            1 <= len <= 17,
            idx <= selected@.len(),
            idx == if selected@.len() < sum_range(bits@, 1, len as int) {
                selected@.len() as int
            } else {
                sum_range(bits@, 1, len as int)
            },
            huffval@.len() == idx,
            forall|k: int| 0 <= k < huffval@.len() ==> selected@.contains(#[trigger] huffval@[k]),
            forall|k: int| 0 <= k < idx ==> huffval@.contains(#[trigger] selected@[k]),
            huffval@ + assigned(bits@, selected@, len as int, idx as int) == assigned(bits@, selected@, 1, 0),
        decreases 17 - len,
    {
        proof {
            lemma_sum_range_nonneg(bits@, 1, len as int);
        }
        let count = bits[len] as usize;
        let idx_start = idx;
        let mut slot: Vec<u8> = Vec::with_capacity(count);
        let mut c: usize = 0;
        while c < count
            invariant
                c <= count,
                idx_start <= idx <= selected@.len(),
                idx == if selected@.len() < idx_start + c {
                    selected@.len() as int
                } else {
                    idx_start + c
                },
                slot@ == selected@.subrange(idx_start as int, idx as int),
            decreases count - c,
        {
            if idx < selected.len() {
                proof {
                    assert(selected@.subrange(idx_start as int, idx + 1) =~= selected@.subrange(
                        idx_start as int,
                        idx as int,
                    ).push(selected@[idx as int]));
                }
                slot.push(selected[idx]);
                idx = idx + 1;
            }
            c = c + 1;
        }
        let ghost slot0 = slot@;
        let ghost huff0 = huffval@;
        sort_bytes(&mut slot);
        let mut q: usize = 0;
        while q < slot.len()
            invariant
                q <= slot@.len(),
                slot@.to_multiset() == slot0.to_multiset(),
                slot@.len() == slot0.len(),
                slot0 == selected@.subrange(idx_start as int, idx as int),
                huffval@ == huff0 + slot@.take(q as int),
            decreases slot@.len() - q,
        {
            let x = slot[q];
            proof {
                assert(slot@.take(q + 1) =~= slot@.take(q as int).push(x));
            }
            huffval.push(x);
            q = q + 1;
        }
        proof {
            broadcast use vstd::seq_lib::group_to_multiset_ensures;

            assert(slot@.take(q as int) =~= slot@);
            lemma_bytes_sorted_is(slot@, slot0);
            let rest = assigned(bits@, selected@, len as int + 1, idx as int);
            assert(assigned(bits@, selected@, len as int, idx_start as int) == slot@ + rest);
            assert(huffval@ + rest =~= huff0 + (slot@ + rest));
            assert forall|k: int| 0 <= k < huffval@.len() implies selected@.contains(#[trigger] huffval@[k]) by {
                if k >= huff0.len() {
                    let x = slot@[k - huff0.len()];
                    assert(huffval@[k] == x);
                    assert(slot@.contains(x));
                    assert(slot0.to_multiset().count(x) > 0);
                    let w = choose|w: int| 0 <= w < slot0.len() && slot0[w] == x;
                    assert(selected@[idx_start + w] == x);
                } else {
                    assert(huffval@[k] == huff0[k]);
                }
            }
            assert forall|k: int| 0 <= k < idx implies huffval@.contains(#[trigger] selected@[k]) by {
                if k >= idx_start {
                    let x = selected@[k];
                    assert(slot0[k - idx_start] == x);
                    assert(slot0.contains(x));
                    assert(slot@.to_multiset().count(x) > 0);
                    let w = choose|w: int| 0 <= w < slot@.len() && slot@[w] == x;
                    assert(huffval@[huff0.len() + w] == x);
                } else {
                    let w = choose|w: int| 0 <= w < huff0.len() && huff0[w] == selected@[k];
                    assert(huffval@[w] == huff0[w]);
                }
            }
        }
        len = len + 1;
    }
    assert(huffval@ + assigned(bits@, selected@, 17, idx as int) =~= huffval@);
    huffval
}

/// The DC differences of a prefix fit when those of the whole do.
pub proof fn lemma_diffs_fit_prefix(blocks: Seq<[i16; 64]>, k: int, prev: i16)
    requires
        0 <= k <= blocks.len(),
        dc_diffs_fit(blocks, prev),
    ensures
        dc_diffs_fit(blocks.take(k), prev),
    decreases blocks.len() - k,
{
    if k < blocks.len() {
        assert(blocks.drop_last().take(k) =~= blocks.take(k));
        lemma_diffs_fit_prefix(blocks.drop_last(), k, prev);
    } else {
        assert(blocks.take(k) =~= blocks);
    }
}

} // verus!
