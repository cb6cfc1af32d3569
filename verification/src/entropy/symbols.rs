//! The symbol stream of baseline Huffman coding (T.81 §F.1.2).
//!
//! Each quantized block (64 coefficients in zig-zag order) is described by a
//! sequence of tokens: one DC token for the difference to the previous DC
//! value, then AC tokens for the run-length coded AC coefficients. A token
//! is a Huffman-coded symbol followed by raw additional bits. The frequency
//! counter and the encoder both follow this one description.
use vstd::arithmetic::power2::*;
use vstd::prelude::*;

use crate::bitstream::{bits_of, push_bits, count_message, WriterState};
use crate::text::{spec_decimal, spec_hex, spec_signed_decimal};
use crate::entropy::huffman_table::HuffmanTable;
use crate::error::Error;

verus! {

/// Number of binary digits of `n` (0 for 0).
pub open spec fn bit_length(n: nat) -> nat
    decreases n,
{
    if n == 0 {
        0
    } else {
        1 + bit_length(n / 2)
    }
}

/// |v| as a natural number.
pub open spec fn magnitude(v: i16) -> nat {
    if v < 0 {
        (-(v as int)) as nat
    } else {
        v as nat
    }
}

/// The SSSS category of a value (T.81 Tables F.1, F.2): the number of bits
/// of its magnitude, limited to 15.
pub open spec fn spec_category(v: i16) -> u8 {
    if bit_length(magnitude(v)) > 15 {
        15
    } else {
        bit_length(magnitude(v)) as u8
    }
}

/// The SSSS additional bits of a value (T.81 §F.1.2.1.1): the value itself
/// when it is not negative, otherwise the low SSSS bits of value - 1.
pub open spec fn spec_additional(v: i16, ssss: u8) -> u16 {
    if v >= 0 {
        v as u16
    } else {
        ((v as int - 1) % (pow2(ssss as nat) as int)) as u16
    }
}

/// A Huffman-coded symbol with its additional bits.
pub struct Token {
    /// Whether the symbol is coded with the AC table (else the DC table).
    pub ac: bool,
    /// The symbol: SSSS for DC, RRRRSSSS for AC.
    pub symbol: u8,
    /// The additional bits, taken from the low `extra_len` bits.
    pub extra: u16,
    /// Number of additional bits.
    pub extra_len: u8,
    /// The DC difference or AC coefficient that the token codes (0 for ZRL
    /// and EOB).
    pub value: i16,
}

/// The token of a DC difference.
pub open spec fn dc_token(diff: i16) -> Token {
    let s = spec_category(diff);
    Token { ac: false, symbol: s, extra: spec_additional(diff, s), extra_len: s, value: diff }
}

/// Zero run length: 16 zero coefficients (symbol 0xF0).
pub open spec fn zrl_token() -> Token {
    Token { ac: true, symbol: 0xF0, extra: 0, extra_len: 0, value: 0 }
}

/// End of block: all remaining coefficients are zero (symbol 0x00).
pub open spec fn eob_token() -> Token {
    Token { ac: true, symbol: 0x00, extra: 0, extra_len: 0, value: 0 }
}

/// A non-zero AC coefficient preceded by `run` (< 16) zero coefficients.
pub open spec fn coef_token(run: nat, v: i16) -> Token {
    let s = spec_category(v);
    Token { ac: true, symbol: (run * 16 + s) as u8, extra: spec_additional(v, s), extra_len: s, value: v }
}

/// `run / 16` ZRL tokens.
pub open spec fn zrls(run: nat) -> Seq<Token> {
    Seq::new(run / 16, |i: int| zrl_token())
}

/// The AC tokens for the coefficients `ac[i..]`, when `run` zero
/// coefficients precede position `i` (T.81 Figure F.2).
pub open spec fn ac_tokens(ac: Seq<i16>, i: nat, run: nat) -> Seq<Token>
    decreases ac.len() - i,
{
    if i >= ac.len() {
        if run > 0 {
            seq![eob_token()]
        } else {
            Seq::empty()
        }
    } else if ac[i as int] == 0 {
        ac_tokens(ac, i + 1, run + 1)
    } else {
        zrls(run) + seq![coef_token(run % 16, ac[i as int])] + ac_tokens(ac, i + 1, 0)
    }
}

/// The tokens of one block in zig-zag order whose DC prediction is `prev`.
pub open spec fn block_tokens(zz: Seq<i16>, prev: i16) -> Seq<Token> {
    seq![dc_token((zz[0] - prev) as i16)] + ac_tokens(zz.subrange(1, 64), 0, 0)
}

/// The DC difference of every block of `blocks` fits in 16 bits, the first
/// one being predicted by `prev`.
pub open spec fn dc_diffs_fit(blocks: Seq<[i16; 64]>, prev: i16) -> bool
    decreases blocks.len(),
{
    if blocks.len() == 0 {
        true
    } else {
        &&& dc_diffs_fit(blocks.drop_last(), prev)
        &&& -32768 <= blocks.last()@[0] - next_prediction(blocks.drop_last(), prev) <= 32767
    }
}

/// The DC value predicting the block after `blocks` (the last DC, or `prev`).
pub open spec fn next_prediction(blocks: Seq<[i16; 64]>, prev: i16) -> i16 {
    if blocks.len() == 0 {
        prev
    } else {
        blocks.last()@[0]
    }
}

/// Counting the symbols of `blocks` in 32-bit counters does not overflow.
pub open spec fn counts_fit(blocks: Seq<[i16; 64]>, prev: i16) -> bool {
    forall|ac: bool, sym: u8| #[trigger] count_symbol(stream_tokens(blocks, prev), ac, sym) <= u32::MAX
}

/// The tokens of consecutive blocks, each DC predicted by the previous one.
pub open spec fn stream_tokens(blocks: Seq<[i16; 64]>, prev: i16) -> Seq<Token>
    decreases blocks.len(),
{
    if blocks.len() == 0 {
        Seq::empty()
    } else {
        stream_tokens(blocks.drop_last(), prev) + block_tokens(
            blocks.last()@,
            next_prediction(blocks.drop_last(), prev),
        )
    }
}

/// Number of tokens of class `ac` with symbol `sym`.
pub open spec fn count_symbol(toks: Seq<Token>, ac: bool, sym: u8) -> nat
    decreases toks.len(),
{
    if toks.len() == 0 {
        0
    } else {
        count_symbol(toks.drop_last(), ac, sym) + if toks.last().ac == ac && toks.last().symbol
            == sym {
            1nat
        } else {
            0nat
        }
    }
}

/// Why a token cannot be written with a table.
pub enum CodeFault {
    /// The token's symbol has no code (code length 0).
    Missing(Token),
    /// The code length exceeds 16 bits.
    TooLong(u8),
}

/// The table that codes a token.
pub open spec fn table_for(t: Token, dc: HuffmanTable, ac: HuffmanTable) -> HuffmanTable {
    if t.ac {
        ac
    } else {
        dc
    }
}

/// The fault, if any, of writing token `t`.
pub open spec fn token_fault(t: Token, dc: HuffmanTable, ac: HuffmanTable) -> Option<CodeFault> {
    let size = table_for(t, dc, ac).ehufsi@[t.symbol as int];
    if size == 0 {
        Some(CodeFault::Missing(t))
    } else if size > 16 {
        Some(CodeFault::TooLong(size))
    } else {
        None
    }
}

/// The bits of token `t`: its Huffman code, then its additional bits.
pub open spec fn token_bits(t: Token, dc: HuffmanTable, ac: HuffmanTable) -> Seq<bool> {
    let table = table_for(t, dc, ac);
    bits_of(table.ehufco@[t.symbol as int] as nat, table.ehufsi@[t.symbol as int] as nat)
        + bits_of(t.extra as nat, t.extra_len as nat)
}

/// The bits of a token sequence.
pub open spec fn tokens_bits(toks: Seq<Token>, dc: HuffmanTable, ac: HuffmanTable) -> Seq<bool>
    decreases toks.len(),
{
    if toks.len() == 0 {
        Seq::empty()
    } else {
        tokens_bits(toks.drop_last(), dc, ac) + token_bits(toks.last(), dc, ac)
    }
}

/// The first fault met when writing a token sequence in order.
pub open spec fn tokens_fault(toks: Seq<Token>, dc: HuffmanTable, ac: HuffmanTable) -> Option<
    CodeFault,
>
    decreases toks.len(),
{
    if toks.len() == 0 {
        None
    } else if tokens_fault(toks.drop_last(), dc, ac) is Some {
        tokens_fault(toks.drop_last(), dc, ac)
    } else {
        token_fault(toks.last(), dc, ac)
    }
}

/// The text that explains a missing code: the DC category and difference,
/// the ZRL or EOB symbol, or the AC symbol in hexadecimal with its run,
/// category and coefficient.
pub open spec fn fault_context(t: Token) -> Seq<char> {
    if !t.ac {
        "DC category "@ + spec_decimal(t.symbol as nat) + " (diff="@ + spec_signed_decimal(t.value as int)
            + ")"@
    } else if t.symbol == 0xF0 {
        "AC ZRL symbol (run of 16 zeros)"@
    } else if t.symbol == 0x00 {
        "AC EOB symbol (end of block)"@
    } else {
        "AC symbol 0x"@ + spec_hex(t.symbol as nat, 2) + " (run="@ + spec_decimal((t.symbol / 16) as nat)
            + ", category="@ + spec_decimal((t.symbol % 16) as nat) + ", coeff="@ + spec_signed_decimal(
            t.value as int,
        ) + ")"@
    }
}

/// The tokens written before the first fault: all of them when none
/// faults.
pub open spec fn written_prefix(toks: Seq<Token>, dc: HuffmanTable, ac: HuffmanTable) -> Seq<Token>
    decreases toks.len(),
{
    if toks.len() == 0 {
        toks
    } else if tokens_fault(toks.drop_last(), dc, ac) is Some {
        written_prefix(toks.drop_last(), dc, ac)
    } else if token_fault(toks.last(), dc, ac) is Some {
        toks.drop_last()
    } else {
        toks
    }
}

/// The error that a fault is reported as.
pub open spec fn fault_error(r: Result<(), Error>, f: CodeFault) -> bool {
    match f {
        CodeFault::Missing(t) => match r {
            Err(Error::MissingHuffmanCode { symbol, context }) => symbol == t.symbol as u16 && context@ == fault_context(t),
            _ => false,
        },
        CodeFault::TooLong(n) => match r {
            Err(Error::BitstreamError(m)) => m@ == count_message(n),
            _ => false,
        },
    }
}

/// What writing `toks` does: on success the writer state becomes
/// `push_bits(st, bits)`; otherwise the first fault is reported and the
/// writer holds the bits of the tokens before it.
pub open spec fn writes_tokens(
    r: Result<(), Error>,
    st: WriterState,
    fin: WriterState,
    toks: Seq<Token>,
    dc: HuffmanTable,
    ac: HuffmanTable,
) -> bool {
    match tokens_fault(toks, dc, ac) {
        None => r is Ok && fin == push_bits(st, tokens_bits(toks, dc, ac)),
        Some(f) => fault_error(r, f) && fin == push_bits(st, tokens_bits(written_prefix(toks, dc, ac), dc, ac)),
    }
}

/// Writing one more token appends its bits, and its fault when none came before.
pub proof fn lemma_push_token(toks: Seq<Token>, t: Token, dc: HuffmanTable, ac: HuffmanTable)
    ensures
        tokens_bits(toks.push(t), dc, ac) == tokens_bits(toks, dc, ac) + token_bits(t, dc, ac),
        tokens_fault(toks.push(t), dc, ac) == if tokens_fault(toks, dc, ac) is Some {
            tokens_fault(toks, dc, ac)
        } else {
            token_fault(t, dc, ac)
        },
        written_prefix(toks.push(t), dc, ac) == if tokens_fault(toks, dc, ac) is Some {
            written_prefix(toks, dc, ac)
        } else if token_fault(t, dc, ac) is Some {
            toks
        } else {
            toks.push(t)
        },
{
    assert(toks.push(t).drop_last() =~= toks);
    assert(toks.push(t).last() == t);
}


/// AC tokens are all coded with the AC table.
pub proof fn lemma_ac_tokens_are_ac(ac: Seq<i16>, i: nat, run: nat)
    ensures
        forall|j: int| 0 <= j < ac_tokens(ac, i, run).len() ==> #[trigger] ac_tokens(ac, i, run)[j].ac,
    decreases ac.len() - i,
{
    let res = ac_tokens(ac, i, run);
    if i < ac.len() {
        if ac[i as int] == 0 {
            lemma_ac_tokens_are_ac(ac, i + 1, run + 1);
            assert(res == ac_tokens(ac, i + 1, run + 1));
        } else {
            lemma_ac_tokens_are_ac(ac, i + 1, 0);
            let rest = ac_tokens(ac, i + 1, 0);
            let z = zrls(run);
            assert(res == z + seq![coef_token(run % 16, ac[i as int])] + rest);
            assert forall|j: int| 0 <= j < res.len() implies #[trigger] res[j].ac by {
                if j < z.len() {
                    assert(res[j] == z[j]);
                } else if j == z.len() {
                    assert(res[j] == coef_token(run % 16, ac[i as int]));
                } else {
                    assert(res[j] == rest[j - z.len() - 1]);
                }
            }
        }
    } else {
        if run > 0 {
            assert(res == seq![eob_token()]);
            assert forall|j: int| 0 <= j < res.len() implies #[trigger] res[j].ac by {
                assert(res[j] == eob_token());
            }
        } else {
            assert(res == Seq::<Token>::empty());
        }
    }
}

/// The bits and the first fault of two token sequences written one after the other.
pub proof fn lemma_tokens_append(a: Seq<Token>, b: Seq<Token>, dc: HuffmanTable, ac: HuffmanTable)
    ensures
        tokens_bits(a + b, dc, ac) == tokens_bits(a, dc, ac) + tokens_bits(b, dc, ac),
        tokens_fault(a + b, dc, ac) == if tokens_fault(a, dc, ac) is Some {
            tokens_fault(a, dc, ac)
        } else {
            tokens_fault(b, dc, ac)
        },
        written_prefix(a + b, dc, ac) == if tokens_fault(a, dc, ac) is Some {
            written_prefix(a, dc, ac)
        } else {
            a + written_prefix(b, dc, ac)
        },
    decreases b.len(),
{
    if b.len() == 0 {
        assert(a + b =~= a);
        assert(a + Seq::<Token>::empty() =~= a);
        assert(tokens_bits(a, dc, ac) + Seq::<bool>::empty() =~= tokens_bits(a, dc, ac));
    } else {
        lemma_tokens_append(a, b.drop_last(), dc, ac);
        assert((a + b).drop_last() =~= a + b.drop_last());
        assert((a + b).last() == b.last());
        assert(a + b.drop_last() =~= a + b.drop_last());
        assert((a + b.drop_last()).push(b.last()) =~= a + b);
        assert(a + b =~= a + b.drop_last().push(b.last()));
        assert(tokens_bits(a, dc, ac) + tokens_bits(b.drop_last(), dc, ac) + token_bits(
            b.last(),
            dc,
            ac,
        ) =~= tokens_bits(a, dc, ac) + (tokens_bits(b.drop_last(), dc, ac) + token_bits(
            b.last(),
            dc,
            ac,
        )));
    }
}

/// Counts of a concatenation add up.
pub proof fn lemma_count_append(a: Seq<Token>, b: Seq<Token>, ac: bool, sym: u8)
    ensures
        count_symbol(a + b, ac, sym) == count_symbol(a, ac, sym) + count_symbol(b, ac, sym),
    decreases b.len(),
{
    if b.len() == 0 {
        assert(a + b =~= a);
    } else {
        lemma_count_append(a, b.drop_last(), ac, sym);
        assert((a + b).drop_last() =~= a + b.drop_last());
    }
}

/// A prefix has no more tokens of a symbol than the whole.
pub proof fn lemma_count_prefix(a: Seq<Token>, b: Seq<Token>, ac: bool, sym: u8)
    ensures
        count_symbol(a, ac, sym) <= count_symbol(a + b, ac, sym),
{
    lemma_count_append(a, b, ac, sym);
}

/// Counting one more token.
pub proof fn lemma_count_push(a: Seq<Token>, t: Token, ac: bool, sym: u8)
    ensures
        count_symbol(a.push(t), ac, sym) == count_symbol(a, ac, sym) + if t.ac == ac && t.symbol
            == sym {
            1nat
        } else {
            0nat
        },
{
    assert(a.push(t).drop_last() =~= a);
}

/// The tokens of the first `k` blocks are a prefix of those of all blocks.
pub proof fn lemma_stream_count_prefix(blocks: Seq<[i16; 64]>, k: int, prev: i16, ac: bool, sym: u8)
    requires
        0 <= k <= blocks.len(),
    ensures
        count_symbol(stream_tokens(blocks.take(k), prev), ac, sym) <= count_symbol(
            stream_tokens(blocks, prev),
            ac,
            sym,
        ),
    decreases blocks.len() - k,
{
    if k < blocks.len() {
        lemma_stream_count_prefix(blocks, k + 1, prev, ac, sym);
        let t = blocks.take(k + 1);
        assert(t.drop_last() =~= blocks.take(k));
        lemma_count_prefix(
            stream_tokens(blocks.take(k), prev),
            block_tokens(t.last()@, next_prediction(t.drop_last(), prev)),
            ac,
            sym,
        );
    } else {
        assert(blocks.take(k) =~= blocks);
    }
}

/// A number of `bit_length(n)` bits: below the next power of two, at least the previous one.
pub proof fn lemma_bit_length_bound(n: nat)
    ensures
        n < pow2(bit_length(n)),
        n > 0 ==> pow2((bit_length(n) - 1) as nat) <= n,
    decreases n,
{
    if n == 0 {
        lemma2_to64();
    } else {
        lemma_bit_length_bound(n / 2);
        lemma_pow2_unfold(bit_length(n));
        if n / 2 > 0 {
            lemma_pow2_unfold((bit_length(n) - 1) as nat);
        } else {
            lemma2_to64();
        }
    }
}

/// The category table (T.81 Table F.1): a non-zero value of category
/// SSSS has a magnitude in 2^(SSSS-1) ..= 2^SSSS - 1.
pub proof fn lemma_category_range(v: i16)
    requires
        v != 0,
        v != -32768,
    ensures
        1 <= spec_category(v) <= 15,
        pow2((spec_category(v) - 1) as nat) <= magnitude(v) < pow2(spec_category(v) as nat),
{
    let m = magnitude(v);
    lemma_bit_length_bound(m);
    if bit_length(m) > 15 {
        lemma2_to64();
        if bit_length(m) > 16 {
            lemma_pow2_strictly_increases(15, (bit_length(m) - 1) as nat);
        }
        assert(false);
    }
}

} // verus!
