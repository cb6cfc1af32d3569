//! Bit-oriented output for JPEG entropy-coded data (T.81 §C.3, §F.1.2.3).
//!
//! Bits are packed most significant first. Inside entropy-coded data every
//! emitted 0xFF byte is followed by a stuffed 0x00 byte. At the end of a
//! segment a partial byte is padded with 1-bits.
use vstd::arithmetic::div_mod::*;
use vstd::arithmetic::mul::*;
use vstd::arithmetic::power2::*;
use vstd::bits::*;
use vstd::prelude::*;

use crate::error::Error;
use crate::text::{decimal_string, spec_decimal};

verus! {

/// The `n` low-order bits of `v`, most significant first.
pub open spec fn bits_of(v: nat, n: nat) -> Seq<bool>
    decreases n,
{
    if n == 0 {
        Seq::empty()
    } else {
        bits_of(v / 2, (n - 1) as nat).push(v % 2 == 1)
    }
}

/// The unsigned number whose binary digits (most significant first) are `b`.
pub open spec fn value_of(b: Seq<bool>) -> nat
    decreases b.len(),
{
    if b.len() == 0 {
        0
    } else {
        2 * value_of(b.drop_last()) + if b.last() {
            1nat
        } else {
            0nat
        }
    }
}

/// The complete bytes formed by consecutive groups of 8 bits; a trailing
/// partial group contributes nothing.
pub open spec fn pack(b: Seq<bool>) -> Seq<u8>
    decreases b.len(),
{
    if b.len() < 8 {
        Seq::empty()
    } else {
        seq![value_of(b.take(8)) as u8] + pack(b.skip(8))
    }
}

/// A byte as it appears in entropy-coded data: 0xFF is followed by 0x00.
pub open spec fn stuff_byte(x: u8) -> Seq<u8> {
    if x == 0xFF {
        seq![0xFFu8, 0x00u8]
    } else {
        seq![x]
    }
}

/// Byte stuffing of a whole sequence (T.81 §F.1.2.3).
pub open spec fn stuff(s: Seq<u8>) -> Seq<u8>
    decreases s.len(),
{
    if s.len() == 0 {
        Seq::empty()
    } else {
        stuff_byte(s[0]) + stuff(s.skip(1))
    }
}

/// `n` one-bits.
pub open spec fn ones(n: nat) -> Seq<bool> {
    Seq::new(n, |i: int| true)
}

/// The abstract state of a writer: the bytes already output and the bits
/// not yet forming a complete byte.
pub type WriterState = (Seq<u8>, Seq<bool>);

/// The state after appending the bits `new` to the entropy-coded stream:
/// every complete byte is output (with stuffing), the rest stays pending.
pub open spec fn push_bits(st: WriterState, new: Seq<bool>) -> WriterState {
    let all = st.1 + new;
    (st.0 + stuff(pack(all)), all.skip(((all.len() / 8) * 8) as int))
}

/// The state after padding the pending bits with 1-bits to a byte boundary.
pub open spec fn flush_state(st: WriterState) -> WriterState {
    if st.1.len() == 0 {
        st
    } else {
        (st.0 + stuff(pack(st.1 + ones((8 - st.1.len()) as nat))), Seq::empty())
    }
}

/// `r` is a bit-writer error with message `msg`.
pub open spec fn bitstream_error(r: Result<(), Error>, msg: Seq<char>) -> bool {
    match r {
        Err(Error::BitstreamError(m)) => m@ == msg,
        _ => false,
    }
}

/// The message of the error for a bit count above 16.
pub open spec fn count_message(count: u8) -> Seq<char> {
    "write_bits: count must be in 0..=16, got "@ + spec_decimal(count as nat)
}

/// The message of the error for a raw write with pending bits.
pub open spec fn unaligned_message(pending: nat) -> Seq<char> {
    "cannot write raw bytes with "@ + spec_decimal(pending) + " unflushed bits in the accumulator"@
}

/// `bits_of(v, n)` has `n` bits.
pub proof fn lemma_bits_of_len(v: nat, n: nat)
    ensures
        bits_of(v, n).len() == n,
    decreases n,
{
    if n > 0 {
        lemma_bits_of_len(v / 2, (n - 1) as nat);
    }
}

/// Splitting the low `n + m` bits of `v` into its high `n` and low `m` bits.
pub proof fn lemma_bits_of_split(v: nat, n: nat, m: nat)
    ensures
        bits_of(v, n + m) == bits_of(v / pow2(m), n) + bits_of(v % pow2(m), m),
    decreases m,
{
    lemma_pow2_pos(m);
    if m == 0 {
        lemma2_to64();
        assert(bits_of(v, n) + bits_of(v % 1, 0) =~= bits_of(v, n));
    } else {
        let p = pow2((m - 1) as nat);
        lemma_pow2_pos((m - 1) as nat);
        lemma_pow2_unfold(m);
        lemma_bits_of_split(v / 2, n, (m - 1) as nat);
        lemma_div_denominator(v as int, 2, p as int);
        lemma_breakdown(v as int, 2, p as int);
        let r = v % pow2(m);
        assert(r == 2 * ((v / 2) % p) + v % 2);
        assert(r / 2 == (v / 2) % p);
        assert(r % 2 == v % 2);
        assert(bits_of(v, n + m) == bits_of(v / 2, (n + m - 1) as nat).push(v % 2 == 1));
        assert(bits_of(r, m) == bits_of(r / 2, (m - 1) as nat).push(r % 2 == 1));
        assert(bits_of(v / 2 / p, n) + bits_of((v / 2) % p, (m - 1) as nat).push(v % 2 == 1)
            =~= (bits_of(v / 2 / p, n) + bits_of((v / 2) % p, (m - 1) as nat)).push(v % 2 == 1));
    }
}

/// Only the low `n` bits of `v` matter.
pub proof fn lemma_bits_of_mod(v: nat, n: nat)
    ensures
        bits_of(v % pow2(n), n) == bits_of(v, n),
{
    lemma_bits_of_split(v, 0, n);
    assert(0 + n == n);
    lemma_bits_of_len(v / pow2(n), 0);
    assert(bits_of(v / pow2(n), 0) + bits_of(v % pow2(n), n) =~= bits_of(v % pow2(n), n));
}

/// The value of the low `n` bits of `v` is `v` modulo 2^n.
pub proof fn lemma_value_of_bits(v: nat, n: nat)
    ensures
        value_of(bits_of(v, n)) == v % pow2(n),
    decreases n,
{
    if n == 0 {
        lemma2_to64();
    } else {
        let p = pow2((n - 1) as nat);
        lemma_pow2_pos((n - 1) as nat);
        lemma_pow2_unfold(n);
        lemma_value_of_bits(v / 2, (n - 1) as nat);
        lemma_breakdown(v as int, 2, p as int);
        let b = bits_of(v, n);
        assert(b.drop_last() =~= bits_of(v / 2, (n - 1) as nat));
    }
}

/// `n` one-bits are the low bits of 2^n - 1.
pub proof fn lemma_bits_of_ones(n: nat)
    ensures
        bits_of((pow2(n) - 1) as nat, n) == ones(n),
    decreases n,
{
    if n == 0 {
        assert(bits_of(0, 0) =~= ones(0));
    } else {
        lemma_pow2_unfold(n);
        lemma_pow2_pos((n - 1) as nat);
        lemma_bits_of_ones((n - 1) as nat);
        let v = (pow2(n) - 1) as nat;
        assert(v / 2 == pow2((n - 1) as nat) - 1);
        assert(v % 2 == 1);
        assert(ones((n - 1) as nat).push(true) =~= ones(n));
    }
}

/// Fewer than 8 bits form no byte.
pub proof fn lemma_pack_short(b: Seq<bool>)
    requires
        b.len() < 8,
    ensures
        pack(b) == Seq::<u8>::empty(),
{
}

/// Packing a leading byte.
pub proof fn lemma_pack_byte(byte: u8, rest: Seq<bool>)
    ensures
        pack(bits_of(byte as nat, 8) + rest) == seq![byte] + pack(rest),
{
    let b8 = bits_of(byte as nat, 8);
    lemma_bits_of_len(byte as nat, 8);
    let all = b8 + rest;
    assert(all.take(8) =~= b8);
    assert(all.skip(8) =~= rest);
    lemma_value_of_bits(byte as nat, 8);
    lemma2_to64();
}

/// Stuffing a sequence byte by byte from its front.
pub proof fn lemma_stuff_cons(x: u8, rest: Seq<u8>)
    ensures
        stuff(seq![x] + rest) == stuff_byte(x) + stuff(rest),
{
    let s = seq![x] + rest;
    assert(s.skip(1) =~= rest);
}

/// Byte stuffing distributes over concatenation.
pub proof fn lemma_stuff_append(a: Seq<u8>, b: Seq<u8>)
    ensures
        stuff(a + b) == stuff(a) + stuff(b),
    decreases a.len(),
{
    if a.len() == 0 {
        assert(a + b =~= b);
        assert(stuff(a) + stuff(b) =~= stuff(b));
    } else {
        lemma_stuff_append(a.skip(1), b);
        assert((a + b).skip(1) =~= a.skip(1) + b);
        assert((a + b)[0] == a[0]);
        assert(stuff_byte(a[0]) + (stuff(a.skip(1)) + stuff(b)) =~= (stuff_byte(a[0]) + stuff(
            a.skip(1),
        )) + stuff(b));
    }
}

/// Packing distributes over a concatenation whose first part is whole bytes.
pub proof fn lemma_pack_append(a: Seq<bool>, b: Seq<bool>)
    requires
        a.len() % 8 == 0,
    ensures
        pack(a + b) == pack(a) + pack(b),
    decreases a.len(),
{
    if a.len() == 0 {
        assert(a + b =~= b);
        assert(pack(a) + pack(b) =~= pack(b));
    } else {
        lemma_pack_append(a.skip(8), b);
        assert((a + b).take(8) =~= a.take(8));
        assert((a + b).skip(8) =~= a.skip(8) + b);
        assert(seq![value_of(a.take(8)) as u8] + (pack(a.skip(8)) + pack(b)) =~= (seq![
            value_of(a.take(8)) as u8,
        ] + pack(a.skip(8))) + pack(b));
    }
}

/// Every 0xFF byte of stuffed data is immediately followed by a 0x00 byte.
pub proof fn lemma_stuffed_ff_followed_by_zero(s: Seq<u8>, i: int)
    requires
        0 <= i < stuff(s).len(),
        stuff(s)[i] == 0xFF,
    ensures
        i + 1 < stuff(s).len(),
        stuff(s)[i + 1] == 0x00,
    decreases s.len(),
{
    if s.len() > 0 {
        let h = stuff_byte(s[0]);
        if i < h.len() {
            if s[0] != 0xFF {
                assert(h[i] == s[0]);
            }
        } else {
            lemma_stuffed_ff_followed_by_zero(s.skip(1), i - h.len());
        }
    }
}

/// Appending two bit strings one after the other equals appending their
/// concatenation.
pub proof fn lemma_push_bits_append(st: WriterState, a: Seq<bool>, b: Seq<bool>)
    ensures
        push_bits(push_bits(st, a), b) == push_bits(st, a + b),
{
    let all1 = st.1 + a;
    let k1 = (all1.len() / 8) * 8;
    let pend1 = all1.skip(k1 as int);
    let all2 = pend1 + b;
    let k2 = (all2.len() / 8) * 8;
    let all = st.1 + (a + b);
    assert(all =~= all1 + b);
    // all = all1.take(k1) + all2
    assert(all =~= all1.take(k1 as int) + all2);
    lemma_pack_append(all1.take(k1 as int), all2);
    lemma_pack_append(all1.take(k1 as int), pend1);
    assert(all1 =~= all1.take(k1 as int) + pend1);
    lemma_pack_short(pend1);
    assert(pack(all1.take(k1 as int)) + Seq::<u8>::empty() =~= pack(all1.take(k1 as int)));
    lemma_stuff_append(pack(all1), pack(all2));
    assert(st.0 + stuff(pack(all1)) + stuff(pack(all2)) =~= st.0 + (stuff(pack(all1)) + stuff(
        pack(all2),
    )));
    let k = (all.len() / 8) * 8;
    assert(k == k1 + k2);
    assert(all.skip(k as int) =~= all2.skip(k2 as int));
}

/// Appending no bits changes nothing.
pub proof fn lemma_push_bits_empty(st: WriterState)
    requires
        st.1.len() < 8,
    ensures
        push_bits(st, Seq::empty()) == st,
{
    assert(st.1 + Seq::<bool>::empty() =~= st.1);
    lemma_pack_short(st.1);
    assert(st.0 + stuff(Seq::<u8>::empty()) =~= st.0);
    assert(st.1.skip(0) =~= st.1);
}

/// The bits of a sequence of writes, one after another.
pub open spec fn concat_bits(writes: Seq<Seq<bool>>) -> Seq<bool>
    decreases writes.len(),
{
    if writes.len() == 0 {
        Seq::empty()
    } else {
        concat_bits(writes.drop_last()) + writes.last()
    }
}

/// The writer state after pushing each bit string of `writes` in turn.
pub open spec fn pushed_all(st: WriterState, writes: Seq<Seq<bool>>) -> WriterState
    decreases writes.len(),
{
    if writes.len() == 0 {
        st
    } else {
        push_bits(pushed_all(st, writes.drop_last()), writes.last())
    }
}

/// Writes one after another are one write of their concatenation.
proof fn lemma_pushed_all_concat(st: WriterState, writes: Seq<Seq<bool>>)
    requires
        st.1.len() < 8,
    ensures
        pushed_all(st, writes) == push_bits(st, concat_bits(writes)),
    decreases writes.len(),
{
    if writes.len() == 0 {
        lemma_push_bits_empty(st);
    } else {
        lemma_pushed_all_concat(st, writes.drop_last());
        lemma_push_bits_append(st, concat_bits(writes.drop_last()), writes.last());
    }
}

/// The number of whole bytes that `pack` forms.
proof fn lemma_pack_len(b: Seq<bool>)
    ensures
        pack(b).len() == b.len() / 8,
    decreases b.len(),
{
    if b.len() >= 8 {
        lemma_pack_len(b.skip(8));
    }
}

/// Entropy-coded bytes with the 0x00 that follows each 0xFF removed: what a
/// decoder reads back.
pub open spec fn unstuff(s: Seq<u8>) -> Seq<u8>
    decreases s.len(),
{
    if s.len() == 0 {
        Seq::empty()
    } else if s[0] == 0xFF && s.len() >= 2 && s[1] == 0x00 {
        seq![0xFFu8] + unstuff(s.skip(2))
    } else {
        seq![s[0]] + unstuff(s.skip(1))
    }
}

/// The bits of a byte sequence, each byte most significant bit first.
pub open spec fn unpack(s: Seq<u8>) -> Seq<bool>
    decreases s.len(),
{
    if s.len() == 0 {
        Seq::empty()
    } else {
        bits_of(s[0] as nat, 8) + unpack(s.skip(1))
    }
}

/// Removing the stuffed bytes gives back the bytes that were stuffed.
pub proof fn lemma_unstuff_stuff(s: Seq<u8>)
    ensures
        unstuff(stuff(s)) == s,
    decreases s.len(),
{
    if s.len() > 0 {
        lemma_unstuff_stuff(s.skip(1));
        let t = stuff(s);
        assert(t == stuff_byte(s[0]) + stuff(s.skip(1)));
        if s[0] == 0xFF {
            assert(t.skip(2) =~= stuff(s.skip(1)));
        } else {
            assert(t.skip(1) =~= stuff(s.skip(1)));
        }
        assert(s =~= seq![s[0]] + s.skip(1));
    }
}

proof fn lemma_value_of_bound(b: Seq<bool>)
    ensures
        value_of(b) < pow2(b.len()),
    decreases b.len(),
{
    if b.len() == 0 {
        lemma2_to64();
    } else {
        lemma_value_of_bound(b.drop_last());
        lemma_pow2_unfold(b.len());
    }
}

/// The binary digits of the value of a bit string are the bit string.
proof fn lemma_bits_of_value(b: Seq<bool>)
    ensures
        bits_of(value_of(b), b.len()) == b,
    decreases b.len(),
{
    if b.len() > 0 {
        lemma_bits_of_value(b.drop_last());
        let v = value_of(b);
        assert(v / 2 == value_of(b.drop_last()));
        assert((v % 2 == 1) == b.last());
        assert(b =~= b.drop_last().push(b.last()));
    }
}

/// Unpacking the packed bytes of a bit string gives back its whole bytes.
pub proof fn lemma_unpack_pack(b: Seq<bool>)
    ensures
        unpack(pack(b)) == b.take(((b.len() / 8) * 8) as int),
    decreases b.len(),
{
    if b.len() < 8 {
        assert(b.take(0) =~= Seq::<bool>::empty());
    } else {
        lemma_unpack_pack(b.skip(8));
        let first = b.take(8);
        lemma_value_of_bound(first);
        lemma2_to64();
        lemma_bits_of_value(first);
        let p = pack(b);
        assert(p == seq![value_of(first) as u8] + pack(b.skip(8)));
        assert(p.skip(1) =~= pack(b.skip(8)));
        assert(p[0] as nat == value_of(first));
        let rest = b.skip(8);
        assert((rest.len() / 8) * 8 + 8 == (b.len() / 8) * 8);
        assert(b.take(((b.len() / 8) * 8) as int) =~= first + rest.take(((rest.len() / 8) * 8) as int));
    }
}

/// Unpacking distributes over concatenation.
proof fn lemma_unpack_append(a: Seq<u8>, b: Seq<u8>)
    ensures
        unpack(a + b) == unpack(a) + unpack(b),
    decreases a.len(),
{
    if a.len() == 0 {
        assert(a + b =~= b);
        assert(unpack(a) + unpack(b) =~= unpack(b));
    } else {
        lemma_unpack_append(a.skip(1), b);
        assert((a + b).skip(1) =~= a.skip(1) + b);
        assert((a + b)[0] == a[0]);
        assert(bits_of(a[0] as nat, 8) + (unpack(a.skip(1)) + unpack(b)) =~= (bits_of(a[0] as nat, 8)
            + unpack(a.skip(1))) + unpack(b));
    }
}

/// What a decoder reads back of a write: the bytes a bit string adds to the
/// output, with the stuffed bytes removed and unpacked, followed by the bits
/// still pending, are the bits that were pending before followed by the
/// bit string.
pub proof fn lemma_read_back_push_bits(st: WriterState, b: Seq<bool>)
    ensures
        push_bits(st, b).0.len() >= st.0.len(),
        unpack(unstuff(push_bits(st, b).0.skip(st.0.len() as int))) + push_bits(st, b).1 == st.1 + b,
{
    let all = st.1 + b;
    let k = ((all.len() / 8) * 8) as int;
    let out = push_bits(st, b).0;
    assert(out.skip(st.0.len() as int) =~= stuff(pack(all)));
    lemma_unstuff_stuff(pack(all));
    lemma_unpack_pack(all);
    assert(all.take(k) + all.skip(k) =~= all);
}

/// A writer that starts empty and receives the bit strings `writes` one
/// after another, B being their concatenation, keeps fewer than 8 bits
/// pending: the last len(B) % 8 bits of B. Its output with the 0x00 after
/// each 0xFF removed is the first len(B) / 8 bytes of B, and those bytes
/// read bit by bit, followed by the pending bits, are B.
pub proof fn lemma_write_sequence(writes: Seq<Seq<bool>>)
    ensures
        ({
            let b = concat_bits(writes);
            let st = pushed_all((Seq::<u8>::empty(), Seq::<bool>::empty()), writes);
            &&& st.1 == b.skip(((b.len() / 8) * 8) as int)
            &&& st.1.len() == b.len() % 8
            &&& unstuff(st.0) == pack(b)
            &&& pack(b).len() == b.len() / 8
            &&& unpack(unstuff(st.0)) + st.1 == b
        }),
{
    let e = (Seq::<u8>::empty(), Seq::<bool>::empty());
    let b = concat_bits(writes);
    lemma_pushed_all_concat(e, writes);
    assert(e.1 + b =~= b);
    assert(e.0 + stuff(pack(b)) =~= stuff(pack(b)));
    lemma_unstuff_stuff(pack(b));
    lemma_pack_len(b);
    lemma_unpack_pack(b);
    let k = ((b.len() / 8) * 8) as int;
    assert(b.take(k) + b.skip(k) =~= b);
}

/// What a decoder reads back of a flush: the padded pending bits.
pub proof fn lemma_read_back_flush(st: WriterState)
    requires
        st.1.len() < 8,
    ensures
        flush_state(st).1.len() == 0,
        flush_state(st).0.len() >= st.0.len(),
        unpack(unstuff(flush_state(st).0.skip(st.0.len() as int))) == if st.1.len() == 0 {
            Seq::<bool>::empty()
        } else {
            st.1 + ones((8 - st.1.len()) as nat)
        },
{
    if st.1.len() == 0 {
        assert(st.0.skip(st.0.len() as int) =~= Seq::<u8>::empty());
    } else {
        let all = st.1 + ones((8 - st.1.len()) as nat);
        let out = flush_state(st).0;
        assert(out.skip(st.0.len() as int) =~= stuff(pack(all)));
        lemma_unstuff_stuff(pack(all));
        lemma_unpack_pack(all);
        assert(all.take(8) =~= all);
    }
}

/// A bit-oriented writer that accumulates JPEG entropy-coded data.
///
/// Bits are pushed most significant first into a 32-bit accumulator and
/// output as soon as 8 of them are available, with 0xFF bytes stuffed.
pub struct BitWriter {
    data: Vec<u8>,
    bit_buffer: u32,
    bits_pending: u8,
}

impl View for BitWriter {
    type V = WriterState;

    closed spec fn view(&self) -> WriterState {
        (self.data@, bits_of(self.bit_buffer as nat, self.bits_pending as nat))
    }
}

impl BitWriter {
    /// Fewer than 8 bits are ever pending, and the accumulator holds
    /// exactly the pending bits.
    pub closed spec fn wf(&self) -> bool {
        &&& self.bits_pending < 8
        &&& self.bit_buffer < pow2(self.bits_pending as nat)
    }

    /// A well-formed writer has fewer than 8 pending bits.
    pub proof fn lemma_pending_short(&self)
        requires
            self.wf(),
        ensures
            self@.1.len() < 8,
    {
        lemma_bits_of_len(self.bit_buffer as nat, self.bits_pending as nat);
    }

    /// Create an empty writer with room for `capacity` bytes.
    pub fn with_capacity(capacity: usize) -> (w: Self)
        ensures
            w.wf(),
            w@.0 == Seq::<u8>::empty(),
            w@.1 == Seq::<bool>::empty(),
    {
        proof {
            lemma2_to64();
        }
        BitWriter { data: Vec::with_capacity(capacity), bit_buffer: 0, bits_pending: 0 }
    }

    /// Write the `count` low-order bits of `value`, most significant first.
    ///
    /// A `count` above 16 is refused and nothing is written; a `count` of 0
    /// writes nothing.
    pub fn write_bits(&mut self, value: u32, count: u8) -> (r: Result<(), Error>)
        requires
            old(self).wf(),
        ensures
            final(self).wf(),
            count <= 16 ==> r is Ok && final(self)@ == push_bits(
                old(self)@,
                bits_of(value as nat, count as nat),
            ),
            count > 16 ==> final(self)@ == old(self)@ && bitstream_error(r, count_message(count)),
    {
        if count > 16 {
            let msg = String::from_str("write_bits: count must be in 0..=16, got ").concat(
                decimal_string(count as u64).as_str(),
            );
            return Err(Error::BitstreamError(msg));
        }
        let ghost st = self@;
        let ghost all = st.1 + bits_of(value as nat, count as nat);
        proof {
            lemma_bits_of_len(self.bit_buffer as nat, self.bits_pending as nat);
            lemma_bits_of_len(value as nat, count as nat);
        }
        if count == 0 {
            proof {
                assert(all =~= st.1);
                lemma_pack_short(all);
                assert(st.0 + stuff(Seq::<u8>::empty()) =~= st.0);
                assert(all.skip(0) =~= all);
            }
            return Ok(());
        }
        proof {
            lemma_u32_pow2_no_overflow(count as nat);
            lemma_u32_shl_is_mul(1, count as u32);
        }
        let mask: u32 = (1u32 << count) - 1;
        let masked = value & mask;
        let old_buf = self.bit_buffer;
        let p = self.bits_pending;
        proof {
            let c = count as u32;
            let pp = p as u32;
            lemma_pow2_adds(pp as nat, c as nat);
            lemma_u32_pow2_no_overflow((pp + c) as nat);
            lemma_pow2_pos(c as nat);
            lemma_pow2_pos(pp as nat);
            lemma_mul_strict_inequality(old_buf as int, pow2(pp as nat) as int, pow2(c as nat) as int);
            lemma_mul_is_commutative(old_buf as int, pow2(c as nat) as int);
            lemma_mul_is_commutative(pow2(pp as nat) as int, pow2(c as nat) as int);
            lemma_u32_shl_is_mul(old_buf, c);
            lemma_u32_low_bits_mask_is_mod(value, c as nat);
            assert(low_bits_mask(c as nat) == mask);
        }
        self.bit_buffer = (self.bit_buffer << count) | masked;
        self.bits_pending = self.bits_pending + count;
        proof {
            let c = count as u32;
            let pp = p as u32;
            let nb = self.bit_buffer;
            let shifted = old_buf << c;
            assert(masked < (1u32 << c));
            assert(shifted % (1u32 << c) == 0) by (bit_vector)
                requires shifted == old_buf << c, c < 32;
            assert((shifted | masked) == shifted + masked) by (bit_vector)
                requires
                    shifted % (1u32 << c) == 0,
                    masked < (1u32 << c),
            ;
            let x = nb as nat;
            assert(x == old_buf as nat * pow2(c as nat) + masked as nat);
            assert(x < pow2((pp + c) as nat)) by {
                lemma_mul_inequality(old_buf as int + 1, pow2(pp as nat) as int, pow2(c as nat) as int);
                lemma_mul_is_distributive_add_other_way(pow2(c as nat) as int, old_buf as int, 1);
                assert(masked < pow2(c as nat));
            }
            lemma_bits_of_split(x, pp as nat, c as nat);
            lemma_fundamental_div_mod_converse(
                x as int,
                pow2(c as nat) as int,
                old_buf as int,
                masked as int,
            );
            lemma_bits_of_mod(value as nat, c as nat);
            assert(bits_of(nb as nat, (pp + c) as nat) == all);
            assert(all.skip(0) =~= all);
            assert(st.0 + stuff(Seq::<u8>::empty()) =~= st.0);
        }
        let ghost mut done: int = 0;
        while self.bits_pending >= 8
            invariant
                self.bits_pending <= 23,
                self.bit_buffer < pow2(self.bits_pending as nat),
                done >= 0,
                all.len() == done + self.bits_pending,
                done % 8 == 0,
                all.skip(done) == bits_of(self.bit_buffer as nat, self.bits_pending as nat),
                self.data@ + stuff(pack(bits_of(self.bit_buffer as nat, self.bits_pending as nat)))
                    == st.0 + stuff(pack(all)),
            decreases self.bits_pending,
        {
            self.bits_pending = self.bits_pending - 8;
            let byte = ((self.bit_buffer >> self.bits_pending) & 0xFF) as u8;
            let ghost bb = self.bit_buffer;
            let ghost q = self.bits_pending as u32;
            proof {
                lemma_u32_pow2_no_overflow(q as nat);
                lemma_u32_shl_is_mul(1, q);
            }
            self.bit_buffer = self.bit_buffer & ((1u32 << self.bits_pending) - 1);
            proof {
                lemma_u32_shr_is_div(bb, q);
                assert(((bb >> q) & 0xFF) == (bb >> q) % 256) by (bit_vector);
                lemma_pow2_pos(q as nat);
                lemma2_to64();
                lemma_pow2_adds(8, q as nat);
                lemma_u32_low_bits_mask_is_mod(bb, q as nat);
                assert(low_bits_mask(q as nat) == (1u32 << q) - 1);
                assert(self.bit_buffer == bb % pow2(q as nat) as u32);
                lemma_bits_of_split(bb as nat, 8, q as nat);
                lemma_div_by_multiple_is_strongly_ordered(bb as int, (pow2(q as nat) * 256) as int, pow2(q as nat) as int, 256);
                lemma_div_denominator(bb as int, pow2(q as nat) as int, 256);
                assert(bb as nat / pow2(q as nat) < 256) by {
                    lemma_multiply_divide_lt(bb as int, pow2(q as nat) as int, 256);
                }
                assert(byte as nat == bb as nat / pow2(q as nat));
                let rest = bits_of(self.bit_buffer as nat, q as nat);
                assert(bits_of(bb as nat, (8 + q) as nat) == bits_of(byte as nat, 8) + rest);
                lemma_pack_byte(byte, rest);
                lemma_stuff_cons(byte, pack(rest));
                lemma_bits_of_len(byte as nat, 8);
                assert(all.skip(done + 8) =~= all.skip(done).skip(8));
                assert((bits_of(byte as nat, 8) + rest).skip(8) =~= rest);
                done = done + 8;
            }
            let ghost before = self.data@;
            self.emit_byte(byte);
            proof {
                let rest = bits_of(self.bit_buffer as nat, self.bits_pending as nat);
                assert(self.data@ + stuff(pack(rest)) =~= before + (stuff_byte(byte) + stuff(
                    pack(rest),
                )));
            }
        }
        proof {
            let rest = bits_of(self.bit_buffer as nat, self.bits_pending as nat);
            lemma_bits_of_len(self.bit_buffer as nat, self.bits_pending as nat);
            lemma_pack_short(rest);
            assert(self.data@ + stuff(Seq::<u8>::empty()) =~= self.data@);
            assert((all.len() / 8) * 8 == done);
        }
        Ok(())
    }

    /// Output one byte of entropy-coded data, stuffing 0x00 after 0xFF.
    fn emit_byte(&mut self, byte: u8)
        ensures
            final(self).data@ == old(self).data@ + stuff_byte(byte),
            final(self).bit_buffer == old(self).bit_buffer,
            final(self).bits_pending == old(self).bits_pending,
    {
        self.data.push(byte);
        if byte == 0xFF {
            self.data.push(0x00);
        }
        proof {
            if byte == 0xFF {
                assert(self.data@ =~= old(self).data@ + stuff_byte(byte));
            } else {
                assert(self.data@ =~= old(self).data@ + stuff_byte(byte));
            }
        }
    }

    /// Pad the pending bits with 1-bits up to a byte boundary and output them
    /// (T.81 §B.1.1.5, note 1). Nothing happens when no bit is pending.
    pub fn flush_with_ones(&mut self) -> (r: Result<(), Error>)
        requires
            old(self).wf(),
        ensures
            final(self).wf(),
            r is Ok,
            final(self)@ == flush_state(old(self)@),
            final(self)@.1.len() == 0,
    {
        proof {
            lemma_bits_of_len(self.bit_buffer as nat, self.bits_pending as nat);
        }
        if self.bits_pending > 0 {
            let pad_bits = 8 - self.bits_pending;
            proof {
                lemma_u32_pow2_no_overflow(pad_bits as nat);
                lemma_u32_shl_is_mul(1, pad_bits as u32);
            }
            let ones_value = (1u32 << pad_bits) - 1;
            proof {
                lemma_u32_pow2_no_overflow(pad_bits as nat);
                lemma_u32_shl_is_mul(1, pad_bits as u32);
                lemma_bits_of_ones(pad_bits as nat);
                lemma_pow2_pos(pad_bits as nat);
            }
            let ghost st = self@;
            let r = self.write_bits(ones_value, pad_bits);
            proof {
                let all = st.1 + ones(pad_bits as nat);
                assert(all.len() == 8);
                assert(all.skip(8) =~= Seq::<bool>::empty());
            }
            r
        } else {
            proof {
                assert(self@.1 =~= Seq::<bool>::empty());
            }
            Ok(())
        }
    }

    /// Refuse raw output while entropy-coded bits are pending.
    fn require_aligned(&self) -> (r: Result<(), Error>)
        requires
            self.wf(),
        ensures
            r is Ok <==> self@.1.len() == 0,
            r is Err ==> bitstream_error(r, unaligned_message(self@.1.len())),
    {
        proof {
            lemma_bits_of_len(self.bit_buffer as nat, self.bits_pending as nat);
        }
        if self.bits_pending != 0 {
            let msg = String::from_str("cannot write raw bytes with ").concat(
                decimal_string(self.bits_pending as u64).as_str(),
            ).concat(" unflushed bits in the accumulator");
            return Err(Error::BitstreamError(msg));
        }
        Ok(())
    }

    /// Write one byte outside entropy-coded data (no stuffing).
    ///
    /// Refused while entropy-coded bits are pending.
    pub fn write_raw_byte(&mut self, byte: u8) -> (r: Result<(), Error>)
        requires
            old(self).wf(),
        ensures
            final(self).wf(),
            r is Ok <==> old(self)@.1.len() == 0,
            r is Ok ==> final(self)@ == (old(self)@.0.push(byte), old(self)@.1),
            r is Err ==> final(self)@ == old(self)@ && bitstream_error(
                r,
                unaligned_message(old(self)@.1.len()),
            ),
    {
        self.require_aligned()?;
        self.data.push(byte);
        Ok(())
    }

    /// Write a slice of bytes outside entropy-coded data (no stuffing).
    ///
    /// Refused while entropy-coded bits are pending.
    pub fn write_raw_bytes(&mut self, bytes: &[u8]) -> (r: Result<(), Error>)
        requires
            old(self).wf(),
        ensures
            final(self).wf(),
            r is Ok <==> old(self)@.1.len() == 0,
            r is Ok ==> final(self)@ == (old(self)@.0 + bytes@, old(self)@.1),
            r is Err ==> final(self)@ == old(self)@ && bitstream_error(
                r,
                unaligned_message(old(self)@.1.len()),
            ),
    {
        self.require_aligned()?;
        self.data.extend_from_slice(bytes);
        proof {
            assert(self.data@ =~= old(self).data@ + bytes@);
        }
        Ok(())
    }

    /// Write a 16-bit value in big-endian order outside entropy-coded data.
    ///
    /// Refused while entropy-coded bits are pending.
    pub fn write_u16_be(&mut self, value: u16) -> (r: Result<(), Error>)
        requires
            old(self).wf(),
        ensures
            final(self).wf(),
            r is Ok <==> old(self)@.1.len() == 0,
            r is Ok ==> final(self)@ == (old(self)@.0 + be16(value), old(self)@.1),
            r is Err ==> final(self)@ == old(self)@ && bitstream_error(
                r,
                unaligned_message(old(self)@.1.len()),
            ),
    {
        self.write_raw_byte((value >> 8) as u8)?;
        self.write_raw_byte((value & 0xFF) as u8)?;
        proof {
            assert((value >> 8) as u8 == value / 256) by (bit_vector);
            assert((value & 0xFF) as u8 == value % 256) by (bit_vector);
            assert(self@.0 =~= old(self)@.0 + be16(value));
        }
        Ok(())
    }

    /// Consume the writer and return the bytes output so far (pending bits
    /// are not included).
    pub fn into_bytes(self) -> (r: Vec<u8>)
        ensures
            r@ == self@.0,
    {
        self.data
    }

    /// Number of bytes output so far.
    pub fn len(&self) -> (r: usize)
        ensures
            r == self@.0.len(),
    {
        self.data.len()
    }

    /// Whether no byte has been output yet.
    pub fn is_empty(&self) -> (r: bool)
        ensures
            r == (self@.0.len() == 0),
    {
        self.data.len() == 0
    }
}

/// A 16-bit value as two big-endian bytes (T.81 §B.1.1.1).
pub open spec fn be16(v: u16) -> Seq<u8> {
    seq![(v / 256) as u8, (v % 256) as u8]
}

} // verus!
