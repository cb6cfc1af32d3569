//! Symbol statistics of a scan, gathered in the order in which the scan
//! codes its blocks: block by block as its events list them, each DC
//! difference predicted as the scan predicts it (from the previous block of
//! the component, or zero after a restart marker). Huffman tables built
//! from these counts code every symbol that the scan writes.
use vstd::prelude::*;

use crate::encoder::{ScanEvent, ScanProgress, scan_fold, scan_step, dc_table_of, ac_table_of, dc_bounded};
use crate::entropy::huffman_table::{built_from, occurs, HuffmanTable};
use crate::entropy::symbols::{
    ac_tokens, block_tokens, coef_token, count_symbol, dc_token, eob_token, lemma_ac_tokens_are_ac,
    lemma_count_append, lemma_count_push, spec_category, token_fault, tokens_fault, zrl_token, zrls, Token,
};
use crate::bitstream::WriterState;

verus! {

/// A count, capped at u32::MAX.
pub open spec fn capped(n: int) -> u32 {
    if n > u32::MAX {
        u32::MAX
    } else {
        n as u32
    }
}

/// The tokens that the block events of `events` code for each of the three
/// components, in order, and the DC predictions after them: a restart
/// resets every prediction to zero, a block is predicted by the last block
/// of its component, and an index past a component's blocks codes nothing.
pub open spec fn scan_tokens(events: Seq<ScanEvent>, data: Seq<Seq<[i16; 64]>>) -> (Seq<Seq<Token>>, Seq<i16>)
    decreases events.len(),
{
    if events.len() == 0 {
        (seq![Seq::<Token>::empty(), Seq::<Token>::empty(), Seq::<Token>::empty()], seq![0i16, 0, 0])
    } else {
        let p = scan_tokens(events.drop_last(), data);
        match events.last() {
            ScanEvent::Restart => (p.0, seq![0i16, 0, 0]),
            ScanEvent::Block(c, idx) => {
                if c >= 3 || idx >= data[c as int].len() {
                    p
                } else {
                    let blk = data[c as int][idx as int]@;
                    (
                        p.0.update(c as int, p.0[c as int] + block_tokens(blk, p.1[c as int])),
                        p.1.update(c as int, blk[0]),
                    )
                }
            },
        }
    }
}

/// The counts of the DC (`ac` false, symbols 0..16) or AC (symbols
/// 0..256) symbols that the scan codes for component `c`, capped at
/// u32::MAX.
pub open spec fn scan_counts(events: Seq<ScanEvent>, data: Seq<Seq<[i16; 64]>>, c: int, ac: bool) -> Seq<u32> {
    Seq::new(if ac { 256 } else { 16 }, |s: int| capped(count_symbol(scan_tokens(events, data).0[c], ac, s as u8) as int))
}

pub proof fn lemma_scan_tokens_len(events: Seq<ScanEvent>, data: Seq<Seq<[i16; 64]>>)
    ensures
        scan_tokens(events, data).0.len() == 3,
        scan_tokens(events, data).1.len() == 3,
    decreases events.len(),
{
    if events.len() > 0 {
        lemma_scan_tokens_len(events.drop_last(), data);
    }
}

/// Count the symbols of one block's tokens: the DC category of its
/// difference to `prev`, then the run/size, ZRL and EOB symbols of its AC
/// coefficients. Each count grows by the block's occurrences, capped at
/// u32::MAX.
fn count_block(block: &[i16; 64], prev: i16, dc: &mut [u32; 16], ac: &mut [u32; 256])
    requires
        -32768 <= block[0] - prev <= 32767,
    ensures
        forall|s: int|
            0 <= s < 16 ==> #[trigger] final(dc)@[s] == capped(
                old(dc)@[s] + count_symbol(block_tokens(block@, prev), false, s as u8),
            ),
        forall|s: int|
            0 <= s < 256 ==> #[trigger] final(ac)@[s] == capped(
                old(ac)@[s] + count_symbol(block_tokens(block@, prev), true, s as u8),
            ),
{
    let ghost dc0 = dc@;
    let ghost ac0 = ac@;
    let ghost all = block_tokens(block@, prev);
    let ghost acs = block@.subrange(1, 64);
    let diff = block[0] - prev;
    let ssss = crate::entropy::huffman_table::category(diff) as usize;
    dc[ssss] = dc[ssss].saturating_add(1);
    let ghost mut toks: Seq<Token> = seq![dc_token(diff)];
    proof {
        assert(all == toks + ac_tokens(acs, 0, 0));
        assert(toks == Seq::<Token>::empty().push(dc_token(diff)));
        assert forall|a: bool, s: u8| #[trigger] count_symbol(toks, a, s) == if a == false && s == spec_category(diff) { 1nat } else { 0nat } by {
            lemma_count_push(Seq::<Token>::empty(), dc_token(diff), a, s);
        }
    }
    let mut zero_run: u8 = 0;
    let mut k: usize = 1;
    while k < 64
        invariant
            1 <= k <= 64,
            zero_run < k,
            acs == block@.subrange(1, 64),
            toks + ac_tokens(acs, (k - 1) as nat, zero_run as nat) == all,
            forall|s: int| 0 <= s < 16 ==> #[trigger] dc@[s] == capped(dc0[s] + count_symbol(toks, false, s as u8)),
            forall|s: int| 0 <= s < 256 ==> #[trigger] ac@[s] == capped(ac0[s] + count_symbol(toks, true, s as u8)),
        decreases 64 - k,
    {
        let coeff = block[k];
        assert(coeff == acs[k - 1]);
        if coeff == 0 {
            zero_run = zero_run + 1;
        } else {
            let ghost rest = seq![coef_token((zero_run % 16) as nat, coeff)] + ac_tokens(acs, k as nat, 0);
            assert(ac_tokens(acs, (k - 1) as nat, zero_run as nat) == zrls(zero_run as nat) + rest);
            while zero_run > 15
                invariant
                    toks + zrls(zero_run as nat) + rest == all,
                    rest == seq![coef_token((zero_run % 16) as nat, coeff)] + ac_tokens(acs, k as nat, 0),
                    forall|s: int| 0 <= s < 16 ==> #[trigger] dc@[s] == capped(dc0[s] + count_symbol(toks, false, s as u8)),
                    forall|s: int| 0 <= s < 256 ==> #[trigger] ac@[s] == capped(ac0[s] + count_symbol(toks, true, s as u8)),
                decreases zero_run,
            {
                proof {
                    let z = zrls(zero_run as nat);
                    let z2 = zrls((zero_run - 16) as nat);
                    assert(z =~= seq![zrl_token()] + z2);
                    assert(toks + z + rest =~= toks.push(zrl_token()) + (z2 + rest));
                }
                ac[0xF0] = ac[0xF0].saturating_add(1);
                proof {
                    assert forall|a: bool, s: u8| #[trigger] count_symbol(toks.push(zrl_token()), a, s) == count_symbol(toks, a, s) + if a == true && s == 0xF0 { 1nat } else { 0nat } by {
                        lemma_count_push(toks, zrl_token(), a, s);
                    }
                    toks = toks.push(zrl_token());
                    assert(zrls((zero_run - 16) as nat) =~= zrls(zero_run as nat).skip(1));
                    assert(((zero_run - 16) as nat) % 16 == (zero_run as nat) % 16);
                }
                zero_run = zero_run - 16;
            }
            let ghost t = coef_token(zero_run as nat, coeff);
            proof {
                assert(zrls(zero_run as nat) =~= Seq::<Token>::empty());
                assert(toks + zrls(zero_run as nat) + rest =~= toks.push(t) + ac_tokens(acs, k as nat, 0));
            }
            let cat = crate::entropy::huffman_table::category(coeff);
            let rs = ((zero_run as u16) << 4) | (cat as u16);
            proof {
                assert(((zero_run as u16) << 4) | (cat as u16) == zero_run as u16 * 16 + cat as u16)
                    by (bit_vector)
                    requires
                        zero_run <= 15,
                        cat <= 15,
                ;
                assert(t.symbol == rs);
            }
            ac[rs as usize] = ac[rs as usize].saturating_add(1);
            proof {
                assert forall|a: bool, s: u8| #[trigger] count_symbol(toks.push(t), a, s) == count_symbol(toks, a, s) + if a == true && s == t.symbol { 1nat } else { 0nat } by {
                    lemma_count_push(toks, t, a, s);
                }
                toks = toks.push(t);
            }
            zero_run = 0;
        }
        k = k + 1;
    }
    if zero_run > 0 {
        proof {
            assert(ac_tokens(acs, 63, zero_run as nat) == seq![eob_token()]);
            assert(toks + seq![eob_token()] =~= toks.push(eob_token()));
        }
        ac[0x00] = ac[0x00].saturating_add(1);
        proof {
            assert forall|a: bool, s: u8| #[trigger] count_symbol(toks.push(eob_token()), a, s) == count_symbol(toks, a, s) + if a == true && s == 0 { 1nat } else { 0nat } by {
                lemma_count_push(toks, eob_token(), a, s);
            }
            toks = toks.push(eob_token());
        }
    } else {
        proof {
            assert(toks + Seq::<Token>::empty() =~= toks);
        }
    }
}

/// Every block event of `events` names one of the three components.
pub open spec fn components_ok(events: Seq<ScanEvent>) -> bool {
    forall|j: int|
        #![trigger events[j]]
        0 <= j < events.len() ==> match events[j] {
            ScanEvent::Block(c, _) => c < 3,
            ScanEvent::Restart => true,
        }
}

/// The symbol counts of a scan: DC and AC, per component.
pub struct ScanCounts {
    /// Luminance DC categories.
    pub y_dc: [u32; 16],
    /// Luminance AC symbols.
    pub y_ac: [u32; 256],
    /// Cb DC categories.
    pub cb_dc: [u32; 16],
    /// Cb AC symbols.
    pub cb_ac: [u32; 256],
    /// Cr DC categories.
    pub cr_dc: [u32; 16],
    /// Cr AC symbols.
    pub cr_ac: [u32; 256],
}

/// `r` holds the counts of the symbols that `events` code.
pub open spec fn counts_of(r: ScanCounts, events: Seq<ScanEvent>, data: Seq<Seq<[i16; 64]>>) -> bool {
    &&& r.y_dc@ == scan_counts(events, data, 0, false)
    &&& r.y_ac@ == scan_counts(events, data, 0, true)
    &&& r.cb_dc@ == scan_counts(events, data, 1, false)
    &&& r.cb_ac@ == scan_counts(events, data, 1, true)
    &&& r.cr_dc@ == scan_counts(events, data, 2, false)
    &&& r.cr_ac@ == scan_counts(events, data, 2, true)
}

/// Counts of a stream grown by the counts of more tokens are the counts of
/// the longer stream.
proof fn lemma_counts_grow(before: Seq<u32>, after: Seq<u32>, a: Seq<Token>, b: Seq<Token>, ac: bool)
    requires
        before.len() == after.len(),
        before.len() == if ac { 256int } else { 16int },
        forall|s: int| 0 <= s < before.len() ==> #[trigger] before[s] == capped(count_symbol(a, ac, s as u8) as int),
        forall|s: int| 0 <= s < after.len() ==> #[trigger] after[s] == capped(before[s] + count_symbol(b, ac, s as u8)),
    ensures
        after == Seq::new(if ac { 256 } else { 16 }, |s: int| capped(count_symbol(a + b, ac, s as u8) as int)),
{
    assert forall|s: int| 0 <= s < after.len() implies #[trigger] after[s] == capped(count_symbol(a + b, ac, s as u8) as int) by {
        lemma_count_append(a, b, ac, s as u8);
        assert(before[s] == capped(count_symbol(a, ac, s as u8) as int));
    }
    assert(after =~= Seq::new(if ac { 256 } else { 16 }, |s: int| capped(count_symbol(a + b, ac, s as u8) as int)));
}

/// Count the symbols that the scan `events` codes for the blocks of the
/// three components `y`, `cb` and `cr`, following the scan's DC
/// predictions.
pub fn count_scan(events: &Vec<ScanEvent>, y: &Vec<[i16; 64]>, cb: &Vec<[i16; 64]>, cr: &Vec<[i16; 64]>) -> (r: ScanCounts)
    requires
        dc_bounded(y@),
        dc_bounded(cb@),
        dc_bounded(cr@),
        components_ok(events@),
    ensures
        counts_of(r, events@, seq![y@, cb@, cr@]),
{
    let ghost data = seq![y@, cb@, cr@];
    let mut y_dc = [0u32; 16];
    let mut y_ac = [0u32; 256];
    let mut cb_dc = [0u32; 16];
    let mut cb_ac = [0u32; 256];
    let mut cr_dc = [0u32; 16];
    let mut cr_ac = [0u32; 256];
    let mut y_prev: i16 = 0;
    let mut cb_prev: i16 = 0;
    let mut cr_prev: i16 = 0;
    let mut i: usize = 0;
    proof {
        let e0 = events@.take(0);
        assert(e0 =~= Seq::<ScanEvent>::empty());
        assert(y_dc@ =~= scan_counts(e0, data, 0, false));
        assert(y_ac@ =~= scan_counts(e0, data, 0, true));
        assert(cb_dc@ =~= scan_counts(e0, data, 1, false));
        assert(cb_ac@ =~= scan_counts(e0, data, 1, true));
        assert(cr_dc@ =~= scan_counts(e0, data, 2, false));
        assert(cr_ac@ =~= scan_counts(e0, data, 2, true));
    }
    while i < events.len()
        invariant
            i <= events@.len(),
            data == seq![y@, cb@, cr@],
            dc_bounded(y@),
            dc_bounded(cb@),
            dc_bounded(cr@),
            components_ok(events@),
            counts_of(ScanCounts { y_dc, y_ac, cb_dc, cb_ac, cr_dc, cr_ac }, events@.take(i as int), data),
            scan_tokens(events@.take(i as int), data).1 == seq![y_prev, cb_prev, cr_prev],
            -16384 <= y_prev <= 16383,
            -16384 <= cb_prev <= 16383,
            -16384 <= cr_prev <= 16383,
        decreases events@.len() - i,
    {
        let ghost pre = events@.take(i as int);
        let ghost p = scan_tokens(pre, data);
        let ghost e = events@[i as int];
        proof {
            lemma_scan_tokens_len(pre, data);
            assert(events@.take(i + 1).drop_last() =~= pre);
            assert(events@.take(i + 1).last() == e);
        }
        let ghost next = scan_tokens(events@.take(i + 1), data);
        match events[i] {
            ScanEvent::Restart => {
                y_prev = 0;
                cb_prev = 0;
                cr_prev = 0;
                proof {
                    assert(next.0 == p.0);
                }
            },
            ScanEvent::Block(c, idx) => {
                proof {
                    assert(c < 3);
                }
                if c == 0 {
                    if idx < y.len() {
                        let ghost d0 = y_dc@;
                        let ghost a0 = y_ac@;
                        proof {
                            assert(-16384 <= y@[idx as int]@[0] <= 16383);
                        }
                        count_block(&y[idx], y_prev, &mut y_dc, &mut y_ac);
                        proof {
                            let bt = block_tokens(y@[idx as int]@, y_prev);
                            lemma_counts_grow(d0, y_dc@, p.0[0], bt, false);
                            lemma_counts_grow(a0, y_ac@, p.0[0], bt, true);
                        }
                        y_prev = y[idx][0];
                    }
                } else if c == 1 {
                    if idx < cb.len() {
                        let ghost d0 = cb_dc@;
                        let ghost a0 = cb_ac@;
                        proof {
                            assert(-16384 <= cb@[idx as int]@[0] <= 16383);
                        }
                        count_block(&cb[idx], cb_prev, &mut cb_dc, &mut cb_ac);
                        proof {
                            let bt = block_tokens(cb@[idx as int]@, cb_prev);
                            lemma_counts_grow(d0, cb_dc@, p.0[1], bt, false);
                            lemma_counts_grow(a0, cb_ac@, p.0[1], bt, true);
                        }
                        cb_prev = cb[idx][0];
                    }
                } else {
                    if idx < cr.len() {
                        let ghost d0 = cr_dc@;
                        let ghost a0 = cr_ac@;
                        proof {
                            assert(-16384 <= cr@[idx as int]@[0] <= 16383);
                        }
                        count_block(&cr[idx], cr_prev, &mut cr_dc, &mut cr_ac);
                        proof {
                            let bt = block_tokens(cr@[idx as int]@, cr_prev);
                            lemma_counts_grow(d0, cr_dc@, p.0[2], bt, false);
                            lemma_counts_grow(a0, cr_ac@, p.0[2], bt, true);
                        }
                        cr_prev = cr[idx][0];
                    }
                }
            },
        }
        proof {
            lemma_scan_tokens_len(events@.take(i + 1), data);
            let q = events@.take(i + 1);
            assert(scan_counts(q, data, 0, false) =~= y_dc@);
            assert(scan_counts(q, data, 0, true) =~= y_ac@);
            assert(scan_counts(q, data, 1, false) =~= cb_dc@);
            assert(scan_counts(q, data, 1, true) =~= cb_ac@);
            assert(scan_counts(q, data, 2, false) =~= cr_dc@);
            assert(scan_counts(q, data, 2, true) =~= cr_ac@);
            assert(next.1 =~= seq![y_prev, cb_prev, cr_prev]);
        }
        i = i + 1;
    }
    proof {
        assert(events@.take(events@.len() as int) =~= events@);
    }
    ScanCounts { y_dc, y_ac, cb_dc, cb_ac, cr_dc, cr_ac }
}

/// Every DC-table token of a block is a DC category, at most 15.
proof fn lemma_block_dc_symbols(zz: Seq<i16>, prev: i16)
    ensures
        forall|j: int|
            0 <= j < block_tokens(zz, prev).len() && !(#[trigger] block_tokens(zz, prev)[j]).ac
                ==> block_tokens(zz, prev)[j].symbol <= 15,
{
    lemma_ac_tokens_are_ac(zz.subrange(1, 64), 0, 0);
    let bt = block_tokens(zz, prev);
    let acs = ac_tokens(zz.subrange(1, 64), 0, 0);
    assert forall|j: int| 0 <= j < bt.len() && !(#[trigger] bt[j]).ac implies bt[j].symbol <= 15 by {
        if j > 0 {
            assert(bt[j] == acs[j - 1]);
        }
    }
}

/// Every DC-table token that a scan codes is a DC category, at most 15.
pub proof fn lemma_scan_dc_symbols(events: Seq<ScanEvent>, data: Seq<Seq<[i16; 64]>>, c: int)
    requires
        0 <= c < 3,
    ensures
        forall|j: int|
            0 <= j < scan_tokens(events, data).0[c].len() && !(#[trigger] scan_tokens(events, data).0[c][j]).ac
                ==> scan_tokens(events, data).0[c][j].symbol <= 15,
    decreases events.len(),
{
    if events.len() > 0 {
        lemma_scan_dc_symbols(events.drop_last(), data, c);
        lemma_scan_tokens_len(events.drop_last(), data);
        let p = scan_tokens(events.drop_last(), data);
        let now = scan_tokens(events, data).0[c];
        match events.last() {
            ScanEvent::Restart => {},
            ScanEvent::Block(k, idx) => {
                if k < 3 && idx < data[k as int].len() && k as int == c {
                    let bt = block_tokens(data[k as int][idx as int]@, p.1[c]);
                    lemma_block_dc_symbols(data[k as int][idx as int]@, p.1[c]);
                    assert(now == p.0[c] + bt);
                    assert forall|j: int| 0 <= j < now.len() && !(#[trigger] now[j]).ac implies now[j].symbol <= 15 by {
                        if j < p.0[c].len() {
                            assert(now[j] == p.0[c][j]);
                        } else {
                            assert(now[j] == bt[j - p.0[c].len()]);
                        }
                    }
                }
            },
        }
    }
}

} // verus!
