//! Huffman encoding of quantized blocks (T.81 §F.1.2.1, §F.1.2.2).
//!
//! The DC coefficient is coded as the difference to the previous block's
//! DC value; the AC coefficients are run-length coded with the EOB and ZRL
//! symbols. The exact bits written are those of the token stream described
//! in [`crate::entropy::symbols`].
use vstd::arithmetic::div_mod::*;
use vstd::arithmetic::power2::*;
use vstd::bits::*;
use vstd::prelude::*;

use crate::bitstream::{bits_of, lemma_push_bits_append, push_bits, BitWriter};
use crate::entropy::huffman_table::{category, HuffmanTable};
use crate::entropy::symbols::{
    ac_tokens, block_tokens, lemma_ac_tokens_are_ac, lemma_push_token, coef_token, dc_diffs_fit, dc_token, eob_token, lemma_tokens_append,
    next_prediction, spec_additional, spec_category, stream_tokens, token_bits, tokens_bits,
    tokens_fault, writes_tokens, written_prefix, zrl_token, zrls, Token,
};
use crate::error::Error;
use crate::text::{decimal_string, hex_string, signed_decimal_string};

verus! {

/// Encode consecutive quantized blocks, carrying the DC prediction from
/// block to block.
///
/// On success the writer has received the bits of the token stream of the
/// blocks and `prev_dc` holds the last block's DC value; otherwise the first
/// missing or over-long code is reported and `prev_dc` holds the DC value of
/// the block that met it.
pub fn encode_blocks(
    blocks: &[[i16; 64]],
    dc_table: &HuffmanTable,
    ac_table: &HuffmanTable,
    prev_dc: &mut i16,
    writer: &mut BitWriter,
) -> (r: Result<(), Error>)
    requires
        old(writer).wf(),
        dc_diffs_fit(blocks@, *old(prev_dc)),
    ensures
        final(writer).wf(),
        writes_tokens(
            r,
            old(writer)@,
            final(writer)@,
            stream_tokens(blocks@, *old(prev_dc)),
            *dc_table,
            *ac_table,
        ),
        r is Ok ==> *final(prev_dc) == next_prediction(blocks@, *old(prev_dc)),
        r is Err ==> exists|k: int|
            0 <= k < blocks@.len() && *final(prev_dc) == blocks@[k]@[0]
                && tokens_fault(stream_tokens(blocks@.take(k), *old(prev_dc)), *dc_table, *ac_table) is None
                && #[trigger] tokens_fault(
                block_tokens(blocks@[k]@, next_prediction(blocks@.take(k), *old(prev_dc))),
                *dc_table,
                *ac_table,
            ) is Some,
{
    let ghost p0 = *prev_dc;
    let ghost st0 = writer@;
    let mut b: usize = 0;
    assert(blocks@.take(0) =~= Seq::<[i16; 64]>::empty());
    proof {
        writer.lemma_pending_short();
        crate::bitstream::lemma_push_bits_empty(st0);
    }
    while b < blocks.len()
        invariant
            b <= blocks.len(),
            writer.wf(),
            dc_diffs_fit(blocks@, p0),
            p0 == *old(prev_dc),
            st0 == old(writer)@,
            *prev_dc == next_prediction(blocks@.take(b as int), p0),
            tokens_fault(stream_tokens(blocks@.take(b as int), p0), *dc_table, *ac_table) is None,
            writer@ == push_bits(
                st0,
                tokens_bits(stream_tokens(blocks@.take(b as int), p0), *dc_table, *ac_table),
            ),
        decreases blocks.len() - b,
    {
        let ghost before = stream_tokens(blocks@.take(b as int), p0);
        let ghost t1 = blocks@.take(b + 1);
        proof {
            assert(t1.drop_last() =~= blocks@.take(b as int));
            crate::entropy::huffman_table::lemma_diffs_fit_prefix(blocks@, b + 1, p0);
        }
        let ghost bt = block_tokens(blocks@[b as int]@, *prev_dc);
        let ghost w0 = writer@;
        let r = encode_block(&blocks[b], dc_table, ac_table, prev_dc, writer);
        proof {
            assert(stream_tokens(t1, p0) == before + bt);
            lemma_tokens_append(before, bt, *dc_table, *ac_table);
        }
        if r.is_err() {
            proof {
                assert(tokens_fault(bt, *dc_table, *ac_table) is Some);
                assert(tokens_fault(stream_tokens(t1, p0), *dc_table, *ac_table) == tokens_fault(
                    bt,
                    *dc_table,
                    *ac_table,
                ));
                lemma_stream_fault_prefix(blocks@, b + 1, p0, *dc_table, *ac_table);
                assert(tokens_fault(stream_tokens(blocks@, p0), *dc_table, *ac_table) == tokens_fault(
                    bt,
                    *dc_table,
                    *ac_table,
                ));
                let f = tokens_fault(bt, *dc_table, *ac_table)->0;
                assert(crate::entropy::symbols::fault_error(r, f));
                let wp = written_prefix(bt, *dc_table, *ac_table);
                lemma_tokens_append(before, wp, *dc_table, *ac_table);
                lemma_push_bits_append(
                    st0,
                    tokens_bits(before, *dc_table, *ac_table),
                    tokens_bits(wp, *dc_table, *ac_table),
                );
                assert(written_prefix(stream_tokens(t1, p0), *dc_table, *ac_table) == before + wp);
                assert(*prev_dc == blocks@[b as int]@[0]);
                assert(tokens_fault(
                    block_tokens(blocks@[b as int]@, next_prediction(blocks@.take(b as int), p0)),
                    *dc_table,
                    *ac_table,
                ) is Some);
            }
            return r;
        }
        proof {
            lemma_push_bits_append(
                st0,
                tokens_bits(before, *dc_table, *ac_table),
                tokens_bits(bt, *dc_table, *ac_table),
            );
        }
        b = b + 1;
    }
    proof {
        assert(blocks@.take(blocks.len() as int) =~= blocks@);
    }
    Ok(())
}

/// A fault in the tokens of the first `k` blocks is the fault of all blocks.
proof fn lemma_stream_fault_prefix(
    blocks: Seq<[i16; 64]>,
    k: int,
    prev: i16,
    dc: HuffmanTable,
    ac: HuffmanTable,
)
    requires
        0 <= k <= blocks.len(),
        tokens_fault(stream_tokens(blocks.take(k), prev), dc, ac) is Some,
    ensures
        tokens_fault(stream_tokens(blocks, prev), dc, ac) == tokens_fault(
            stream_tokens(blocks.take(k), prev),
            dc,
            ac,
        ),
        written_prefix(stream_tokens(blocks, prev), dc, ac) == written_prefix(
            stream_tokens(blocks.take(k), prev),
            dc,
            ac,
        ),
    decreases blocks.len() - k,
{
    if k < blocks.len() {
        let t = blocks.take(k + 1);
        assert(t.drop_last() =~= blocks.take(k));
        lemma_tokens_append(
            stream_tokens(blocks.take(k), prev),
            crate::entropy::symbols::block_tokens(
                t.last()@,
                next_prediction(t.drop_last(), prev),
            ),
            dc,
            ac,
        );
        lemma_stream_fault_prefix(blocks, k + 1, prev, dc, ac);
    } else {
        assert(blocks.take(k) =~= blocks);
    }
}

/// Encode one quantized block (64 coefficients in zig-zag order).
///
/// `prev_dc` becomes the block's DC value. On success the writer has
/// received the bits of the block's tokens; otherwise the first missing or
/// over-long code is reported.
pub fn encode_block(
    zz: &[i16; 64],
    dc_table: &HuffmanTable,
    ac_table: &HuffmanTable,
    prev_dc: &mut i16,
    writer: &mut BitWriter,
) -> (r: Result<(), Error>)
    requires
        old(writer).wf(),
        -32768 <= zz@[0] - *old(prev_dc) <= 32767,
    ensures
        final(writer).wf(),
        *final(prev_dc) == zz@[0],
        writes_tokens(
            r,
            old(writer)@,
            final(writer)@,
            block_tokens(zz@, *old(prev_dc)),
            *dc_table,
            *ac_table,
        ),
{
    let dc = zz[0];
    let diff = dc - *prev_dc;
    *prev_dc = dc;
    let ghost st0 = writer@;
    let ghost dct = seq![dc_token(diff)];
    let ghost act = ac_tokens(zz@.subrange(1, 64), 0, 0);
    proof {
        lemma_tokens_append(dct, act, *dc_table, *ac_table);
        assert(dct + act == block_tokens(zz@, *old(prev_dc)));
    }
    let r1 = encode_dc_coefficient(diff, dc_table, writer);
    proof {
        lemma_single_token(dc_token(diff), *dc_table, *ac_table);
        lemma_single_token(dc_token(diff), *dc_table, *dc_table);
        lemma_ac_tokens_are_ac(zz@.subrange(1, 64), 0, 0);
    }
    if r1.is_err() {
        return r1;
    }
    let ghost st1 = writer@;
    let r2 = encode_ac_coefficients(zz, ac_table, writer);
    proof {
        lemma_tokens_ac_only(act, *dc_table, *ac_table);
        if r2 is Ok {
            lemma_push_bits_append(
                st0,
                tokens_bits(dct, *dc_table, *ac_table),
                tokens_bits(act, *dc_table, *ac_table),
            );
        } else {
            let wp = written_prefix(act, *dc_table, *ac_table);
            lemma_written_prefix_is_prefix(act, *dc_table, *ac_table);
            lemma_tokens_ac_only(wp, *dc_table, *ac_table);
            lemma_tokens_append(dct, wp, *dc_table, *ac_table);
            lemma_push_bits_append(
                st0,
                tokens_bits(dct, *dc_table, *ac_table),
                tokens_bits(wp, *dc_table, *ac_table),
            );
        }
    }
    r2
}

/// The tokens of a one-token sequence.
proof fn lemma_single_token(t: Token, dc: HuffmanTable, ac: HuffmanTable)
    ensures
        tokens_bits(seq![t], dc, ac) == token_bits(t, dc, ac),
        tokens_fault(seq![t], dc, ac) == crate::entropy::symbols::token_fault(t, dc, ac),
{
    lemma_push_token(Seq::<Token>::empty(), t, dc, ac);
    assert(Seq::<Token>::empty().push(t) =~= seq![t]);
    assert(Seq::<bool>::empty() + token_bits(t, dc, ac) =~= token_bits(t, dc, ac));
}

/// The written tokens are the first tokens.
proof fn lemma_written_prefix_is_prefix(toks: Seq<Token>, dc: HuffmanTable, ac: HuffmanTable)
    ensures
        written_prefix(toks, dc, ac).len() <= toks.len(),
        forall|i: int|
            0 <= i < written_prefix(toks, dc, ac).len() ==> #[trigger] written_prefix(toks, dc, ac)[i] == toks[i],
    decreases toks.len(),
{
    if toks.len() > 0 {
        lemma_written_prefix_is_prefix(toks.drop_last(), dc, ac);
    }
}

/// AC tokens are coded with the AC table whatever the DC table.
proof fn lemma_tokens_ac_only(toks: Seq<Token>, dc: HuffmanTable, ac: HuffmanTable)
    requires
        forall|i: int| 0 <= i < toks.len() ==> #[trigger] toks[i].ac,
    ensures
        tokens_bits(toks, dc, ac) == tokens_bits(toks, ac, ac),
        tokens_fault(toks, dc, ac) == tokens_fault(toks, ac, ac),
        written_prefix(toks, dc, ac) == written_prefix(toks, ac, ac),
    decreases toks.len(),
{
    if toks.len() > 0 {
        assert(toks.last().ac == toks[toks.len() - 1].ac);
        lemma_tokens_ac_only(toks.drop_last(), dc, ac);
    }
}

/// Encode a DC difference: the code of its category, then its additional
/// bits (T.81 §F.1.2.1).
fn encode_dc_coefficient(diff: i16, table: &HuffmanTable, writer: &mut BitWriter) -> (r: Result<
    (),
    Error,
>)
    requires
        old(writer).wf(),
    ensures
        final(writer).wf(),
        writes_tokens(r, old(writer)@, final(writer)@, seq![dc_token(diff)], *table, *table),
{
    let ssss = category(diff);
    let code = table.ehufco[ssss as usize];
    let size = table.ehufsi[ssss as usize];
    proof {
        lemma_single_token(dc_token(diff), *table, *table);
        lemma_push_token(Seq::<Token>::empty(), dc_token(diff), *table, *table);
        assert(Seq::<Token>::empty().push(dc_token(diff)) =~= seq![dc_token(diff)]);
        writer.lemma_pending_short();
        crate::bitstream::lemma_push_bits_empty(writer@);
    }
    if size == 0 {
        let context = String::from_str("DC category ").concat(
            decimal_string(ssss as u64).as_str(),
        ).concat(" (diff=").concat(signed_decimal_string(diff as i64).as_str()).concat(")");
        return Err(Error::MissingHuffmanCode { symbol: ssss as u16, context });
    }
    let ghost st0 = writer@;
    writer.write_bits(code, size)?;
    let ghost st1 = writer@;
    if ssss > 0 {
        let additional = encode_additional_bits(diff, ssss);
        writer.write_bits(additional as u32, ssss)?;
        proof {
            lemma_push_bits_append(
                st0,
                bits_of(code as nat, size as nat),
                bits_of(additional as nat, ssss as nat),
            );
        }
    } else {
        proof {
            assert(bits_of(code as nat, size as nat) + bits_of(
                spec_additional(diff, 0) as nat,
                0,
            ) =~= bits_of(code as nat, size as nat));
        }
    }
    Ok(())
}

/// Write the code of `symbol` and `extra_len` additional bits.
fn write_token_bits(
    table: &HuffmanTable,
    symbol: u8,
    extra: u16,
    extra_len: u8,
    writer: &mut BitWriter,
) -> (r: Result<(), Error>)
    requires
        old(writer).wf(),
        1 <= table.ehufsi@[symbol as int],
        extra_len <= 15,
    ensures
        final(writer).wf(),
        table.ehufsi@[symbol as int] <= 16 ==> r is Ok && final(writer)@ == push_bits(
            old(writer)@,
            token_bits(
                (Token { ac: true, symbol, extra, extra_len, value: 0 }),
                *table,
                *table,
            ),
        ),
        table.ehufsi@[symbol as int] > 16 ==> crate::entropy::symbols::fault_error(
            r,
            crate::entropy::symbols::CodeFault::TooLong(table.ehufsi@[symbol as int]),
        ) && final(writer)@ == old(writer)@,
{
    let code = table.ehufco[symbol as usize];
    let size = table.ehufsi[symbol as usize];
    let ghost st0 = writer@;
    writer.write_bits(code, size)?;
    writer.write_bits(extra as u32, extra_len)?;
    proof {
        lemma_push_bits_append(
            st0,
            bits_of(code as nat, size as nat),
            bits_of(extra as nat, extra_len as nat),
        );
    }
    Ok(())
}

/// Encode the 63 AC coefficients `zz[1..64]` (T.81 §F.1.2.2, Figure F.2):
/// runs of zeros before a non-zero coefficient, ZRL for each complete run
/// of 16 zeros, EOB when the block ends with zeros.
#[verifier::rlimit(40)]
fn encode_ac_coefficients(zz: &[i16; 64], table: &HuffmanTable, writer: &mut BitWriter) -> (r:
    Result<(), Error>)
    requires
        old(writer).wf(),
    ensures
        final(writer).wf(),
        writes_tokens(
            r,
            old(writer)@,
            final(writer)@,
            ac_tokens(zz@.subrange(1, 64), 0, 0),
            *table,
            *table,
        ),
{
    let ghost ac = zz@.subrange(1, 64);
    let ghost all = ac_tokens(ac, 0, 0);
    let ghost st0 = writer@;
    let ghost mut toks: Seq<Token> = Seq::empty();
    let mut zero_run: u8 = 0;
    let mut k: usize = 1;
    proof {
        assert(toks + all =~= all);
        writer.lemma_pending_short();
        crate::bitstream::lemma_push_bits_empty(st0);
    }
    while k < 64
        invariant
            1 <= k <= 64,
            zero_run < k,
            ac == zz@.subrange(1, 64),
            all == ac_tokens(ac, 0, 0),
            toks + ac_tokens(ac, (k - 1) as nat, zero_run as nat) == all,
            writer.wf(),
            st0 == old(writer)@,
            tokens_fault(toks, *table, *table) is None,
            writer@ == push_bits(st0, tokens_bits(toks, *table, *table)),
        decreases 64 - k,
    {
        let coeff = zz[k];
        assert(coeff == ac[k - 1]);
        if coeff == 0 {
            zero_run = zero_run + 1;
        } else {
            let ghost rest = seq![coef_token((zero_run % 16) as nat, coeff)] + ac_tokens(
                ac,
                k as nat,
                0,
            );
            assert(ac_tokens(ac, (k - 1) as nat, zero_run as nat) == zrls(zero_run as nat) + rest);
            while zero_run > 15
                invariant
                    ac == zz@.subrange(1, 64),
                    all == ac_tokens(ac, 0, 0),
                    1 <= k < 64,
                    toks + zrls(zero_run as nat) + rest == all,
                    rest == seq![coef_token((zero_run % 16) as nat, coeff)] + ac_tokens(
                        ac,
                        k as nat,
                        0,
                    ),
                    writer.wf(),
                    st0 == old(writer)@,
                    tokens_fault(toks, *table, *table) is None,
                    writer@ == push_bits(st0, tokens_bits(toks, *table, *table)),
                decreases zero_run,
            {
                let ghost z2 = zrls((zero_run - 16) as nat);
                proof {
                    let z = zrls(zero_run as nat);
                    assert(z =~= seq![zrl_token()] + z2);
                    assert(toks + z + rest =~= toks.push(zrl_token()) + (z2 + rest));
                    lemma_push_token(toks, zrl_token(), *table, *table);
                    lemma_tokens_append(toks.push(zrl_token()), z2 + rest, *table, *table);
                }
                let size = table.ehufsi[0xF0];
                if size == 0 {
                    let context = String::from_str("AC ZRL symbol (run of 16 zeros)");
                    return Err(Error::MissingHuffmanCode { symbol: 0xF0, context });
                }
                let ghost w0 = writer@;
                write_token_bits(table, 0xF0, 0, 0, writer)?;
                proof {
                    lemma_push_bits_append(
                        st0,
                        tokens_bits(toks, *table, *table),
                        token_bits(zrl_token(), *table, *table),
                    );
                    toks = toks.push(zrl_token());
                    assert(((zero_run - 16) as nat) % 16 == (zero_run as nat) % 16);
                    assert(toks + z2 + rest =~= all);
                }
                zero_run = zero_run - 16;
            }
            let ssss = category(coeff);
            let rs = ((zero_run as u16) << 4) | (ssss as u16);
            proof {
                assert(((zero_run as u16) << 4) | (ssss as u16) == zero_run as u16 * 16
                    + ssss as u16) by (bit_vector)
                    requires
                        zero_run <= 15,
                        ssss <= 15,
                ;
            }
            let ghost t = coef_token(zero_run as nat, coeff);
            proof {
                assert(zrls(zero_run as nat) =~= Seq::<Token>::empty());
                assert(toks + zrls(zero_run as nat) + rest =~= toks.push(t) + ac_tokens(
                    ac,
                    k as nat,
                    0,
                ));
                lemma_push_token(toks, t, *table, *table);
                lemma_tokens_append(toks.push(t), ac_tokens(ac, k as nat, 0), *table, *table);
            }
            let size = table.ehufsi[rs as usize];
            if size == 0 {
                let context = String::from_str("AC symbol 0x").concat(
                    hex_string(rs as u32, 2).as_str(),
                ).concat(" (run=").concat(decimal_string(zero_run as u64).as_str()).concat(
                    ", category=",
                ).concat(decimal_string(ssss as u64).as_str()).concat(", coeff=").concat(
                    signed_decimal_string(coeff as i64).as_str(),
                ).concat(")");
                return Err(Error::MissingHuffmanCode { symbol: rs, context });
            }
            let additional = encode_additional_bits(coeff, ssss);
            write_token_bits(table, rs as u8, additional, ssss, writer)?;
            proof {
                lemma_push_bits_append(
                    st0,
                    tokens_bits(toks, *table, *table),
                    token_bits(t, *table, *table),
                );
                toks = toks.push(t);
            }
            zero_run = 0;
        }
        k = k + 1;
    }
    if zero_run > 0 {
        proof {
            assert(ac_tokens(ac, 63, zero_run as nat) == seq![eob_token()]);
            assert(toks + seq![eob_token()] =~= toks.push(eob_token()));
            lemma_push_token(toks, eob_token(), *table, *table);
        }
        let size = table.ehufsi[0x00];
        if size == 0 {
            let context = String::from_str("AC EOB symbol (end of block)");
            return Err(Error::MissingHuffmanCode { symbol: 0x00, context });
        }
        write_token_bits(table, 0x00, 0, 0, writer)?;
        proof {
            lemma_push_bits_append(
                st0,
                tokens_bits(toks, *table, *table),
                token_bits(eob_token(), *table, *table),
            );
            toks = toks.push(eob_token());
        }
    } else {
        proof {
            assert(toks + Seq::<Token>::empty() =~= toks);
        }
    }
    Ok(())
}

/// The additional bits of a value of category `ssss`: the value itself when
/// it is not negative, otherwise the low `ssss` bits of value - 1
/// (T.81 §F.1.2.1.1, §F.1.2.2.1).
pub fn encode_additional_bits(value: i16, ssss: u8) -> (r: u16)
    requires
        ssss <= 15,
    ensures
        r == spec_additional(value, ssss),
{
    if value >= 0 {
        value as u16
    } else {
        proof {
            lemma_u16_pow2_no_overflow(ssss as nat);
            lemma_u16_shl_is_mul(1, ssss as u16);
        }
        let mask = (1u16 << ssss) - 1;
        let r = ((value as i32) + 65535) as u16 & mask;
        proof {
            let p = pow2(ssss as nat);
            let x = ((value as i32) + 65535) as u16;
            assert(x as int == value as int + 65535);
            lemma_u16_low_bits_mask_is_mod(x, ssss as nat);
            assert(low_bits_mask(ssss as nat) == mask);
            lemma_pow2_adds(ssss as nat, (16 - ssss) as nat);
            lemma2_to64();
            lemma_pow2_pos(ssss as nat);
            lemma_mod_multiples_vanish(
                pow2((16 - ssss) as nat) as int,
                value as int - 1,
                p as int,
            );
        }
        r
    }
}

} // verus!
