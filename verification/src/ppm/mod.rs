//! PPM (Portable Pixmap) images, P3 (ASCII) and P6 (binary).
//!
//! ```text
//!   <magic> <width> <height> <maxval> <pixel data>
//! ```
//!
//! Header tokens are separated by whitespace; a `#` starts a comment that
//! runs to the end of the line. P6 samples are raw bytes, one per sample
//! when maxval < 256, else two (big-endian), and start right after the
//! single whitespace byte that ends maxval. P3 samples are decimal tokens.
//! Samples are rescaled to 0..=255 unless maxval is 255.
pub mod error;

use vstd::prelude::*;

use crate::ppm::error::{unexpected_eof, Error};
use crate::text::{
    decimal_string, fault_text, parse_unsigned, spec_decimal, spec_parse_unsigned, IntFault,
};

verus! {

/// A decoded PPM image: 8-bit RGB samples, row-major, top row first.
pub struct PpmImage {
    /// Image width in pixels.
    pub width: u32,
    /// Image height in pixels.
    pub height: u32,
    /// Interleaved R, G, B samples, `width * height * 3` bytes.
    pub data: Vec<u8>,
}

/// Appends one character.
///
/// Calls `String::push`; the contract claims what its documentation says:
/// the character is added at the end.
#[verifier::external_body]
fn push_char(s: &mut String, c: char)
    ensures
        final(s)@ == old(s)@.push(c),
{
    s.push(c);
}

/// ASCII whitespace: space, tab, line feed, form feed, carriage return.
pub open spec fn is_space(b: u8) -> bool {
    b == 0x20 || b == 0x09 || b == 0x0A || b == 0x0C || b == 0x0D
}

/// The position after the line feed that ends the comment running from
/// `p`, or the end of the data.
pub open spec fn comment_end(data: Seq<u8>, p: int) -> int
    decreases data.len() - p,
{
    if p >= data.len() {
        data.len() as int
    } else if data[p] == 0x0A {
        p + 1
    } else {
        comment_end(data, p + 1)
    }
}

/// A comment ends after it starts and within the data.
pub proof fn lemma_comment_end(data: Seq<u8>, p: int)
    ensures
        p <= data.len() ==> p <= comment_end(data, p) <= data.len(),
    decreases data.len() - p,
{
    if p < data.len() && data[p] != 0x0A {
        lemma_comment_end(data, p + 1);
    }
}

/// The token that reading from `pos` completes, `tok` being read already,
/// and the position after it: comments are skipped, whitespace ends a
/// non-empty token (and is consumed), each other byte is one character.
/// `None` when the data ends before any character.
pub open spec fn token_from(data: Seq<u8>, pos: int, tok: Seq<char>) -> Option<(Seq<char>, int)>
    decreases data.len() - pos,
{
    if pos < 0 || pos >= data.len() {
        if tok.len() == 0 { None } else { Some((tok, pos)) }
    } else if data[pos] == 0x23 {
        proof {
            lemma_comment_end(data, pos + 1);
        }
        token_from(data, comment_end(data, pos + 1), tok)
    } else if is_space(data[pos]) {
        if tok.len() == 0 { token_from(data, pos + 1, tok) } else { Some((tok, pos + 1)) }
    } else {
        token_from(data, pos + 1, tok.push(data[pos] as char))
    }
}

/// The message of the end-of-data error.
pub open spec fn eof_message() -> Seq<char> {
    "unexpected end of file"@
}

/// Read the next token from `start`.
fn read_token(data: &[u8], start: usize) -> (r: Result<(String, usize), Error>)
    requires
        start <= data@.len(),
    ensures
        match token_from(data@, start as int, Seq::empty()) {
            None => r matches Err(e) && e.is_format(eof_message()),
            Some((t, p)) => r matches Ok((s, q)) && s@ == t && q == p,
        },
{
    let mut token = String::new();
    let mut count: usize = 0;
    let mut pos = start;
    let ghost target = token_from(data@, start as int, Seq::empty());
    loop
        invariant
            pos <= data@.len(),
            count == token@.len(),
            count <= pos,
            target == token_from(data@, start as int, Seq::empty()),
            token_from(data@, pos as int, token@) == target,
        decreases data@.len() - pos,
    {
        if pos >= data.len() {
            if count == 0 {
                return Err(Error::InvalidFormat(String::from_str("unexpected end of file")));
            }
            return Ok((token, pos));
        }
        let byte = data[pos];

        // Skip comment lines.
        if byte == 0x23 {
            pos += 1;
            let ghost from = pos as int;
            while pos < data.len() && data[pos] != 0x0A
                invariant
                    from <= pos <= data@.len(),
                    comment_end(data@, pos as int) == comment_end(data@, from),
                decreases data@.len() - pos,
            {
                pos += 1;
            }
            if pos < data.len() {
                pos += 1;
            }
            continue;
        }

        // Whitespace delimits tokens.
        if byte == 0x20 || byte == 0x09 || byte == 0x0A || byte == 0x0C || byte == 0x0D {
            pos += 1;
            if count == 0 {
                continue;
            }
            return Ok((token, pos));
        }

        pos += 1;
        push_char(&mut token, byte as char);
        count += 1;
    }
}

/// A header value from `pos`: its token parsed as a `u32`, or the message
/// of the error.
pub open spec fn value_from(data: Seq<u8>, pos: int, name: Seq<char>) -> Result<(u32, int), Seq<char>> {
    match token_from(data, pos, Seq::empty()) {
        None => Err(eof_message()),
        Some((t, p)) => match spec_parse_unsigned(t, u32::MAX as nat) {
            Ok(v) => Ok((v as u32, p)),
            Err(f) => Err("bad "@ + name + ": "@ + fault_text(f)),
        },
    }
}

/// Read a header value named `name` from `pos`.
fn read_header_value(data: &[u8], pos: usize, name: &str) -> (r: Result<(u32, usize), Error>)
    requires
        pos <= data@.len(),
    ensures
        match value_from(data@, pos as int, name@) {
            Ok((v, p)) => r matches Ok((w, q)) && w == v && q == p,
            Err(m) => r matches Err(e) && e.is_format(m),
        },
        r matches Ok((_, q)) ==> q <= data@.len(),
{
    let (token, next) = read_token(data, pos)?;
    proof {
        let t = token_from(data@, pos as int, Seq::empty());
        lemma_token_end(data@, pos as int, Seq::empty());
    }
    match parse_unsigned(token.as_str(), u32::MAX) {
        Ok(v) => Ok((v, next)),
        Err(f) => Err(Error::InvalidFormat(
            String::from_str("bad ").concat(name).concat(": ").concat(f.message().as_str()),
        )),
    }
}

proof fn lemma_token_end(data: Seq<u8>, pos: int, tok: Seq<char>)
    requires
        0 <= pos <= data.len(),
    ensures
        token_from(data, pos, tok) matches Some((_, p)) ==> pos <= p <= data.len(),
    decreases data.len() - pos,
{
    if pos < data.len() {
        if data[pos] == 0x23 {
            lemma_comment_end(data, pos + 1);
            lemma_token_end(data, comment_end(data, pos + 1), tok);
        } else if is_space(data[pos]) {
            if tok.len() == 0 {
                lemma_token_end(data, pos + 1, tok);
            }
        } else {
            lemma_token_end(data, pos + 1, tok.push(data[pos] as char));
        }
    }
}

/// The header error, if any: a zero or too large dimension
/// (`InvalidFormat`, kind 0) or a maxval outside 1..=65535
/// (`ValueOutOfRange`, kind 1).
pub open spec fn header_fault(width: u32, height: u32, maxval: u32) -> Option<(u8, Seq<char>)> {
    if width == 0 || height == 0 {
        Some((0u8, "zero dimension: "@ + spec_decimal(width as nat) + "x"@ + spec_decimal(height as nat)))
    } else if width > 65535 || height > 65535 {
        Some((0u8, "dimensions too large: "@ + spec_decimal(width as nat) + "x"@ + spec_decimal(height as nat)))
    } else if maxval == 0 || maxval > 65535 {
        Some((1u8, "maxval must be 1..=65535, got "@ + spec_decimal(maxval as nat)))
    } else {
        None
    }
}

/// `e` is the error of kind `k` (0 format, 1 range, 2 I/O) with message
/// `m` (the message of an I/O error is not described).
pub open spec fn error_is(e: Error, k: u8, m: Seq<char>) -> bool {
    if k == 0 {
        e.is_format(m)
    } else if k == 1 {
        e.is_out_of_range(m)
    } else {
        e is Io
    }
}

/// Check the header values.
fn validate_header(width: u32, height: u32, maxval: u32) -> (r: Result<(), Error>)
    ensures
        match header_fault(width, height, maxval) {
            None => r is Ok,
            Some((k, m)) => r matches Err(e) && error_is(e, k, m),
        },
{
    if width == 0 || height == 0 {
        return Err(Error::InvalidFormat(
            String::from_str("zero dimension: ").concat(decimal_string(width as u64).as_str()).concat("x").concat(
                decimal_string(height as u64).as_str(),
            ),
        ));
    }
    if width > 65535 || height > 65535 {
        return Err(Error::InvalidFormat(
            String::from_str("dimensions too large: ").concat(decimal_string(width as u64).as_str()).concat(
                "x",
            ).concat(decimal_string(height as u64).as_str()),
        ));
    }
    if maxval == 0 || maxval > 65535 {
        return Err(Error::ValueOutOfRange(
            String::from_str("maxval must be 1..=65535, got ").concat(decimal_string(maxval as u64).as_str()),
        ));
    }
    Ok(())
}

/// The header after the magic: width, height, maxval and the position of
/// the pixel data, or the error.
pub open spec fn header_from(data: Seq<u8>, pos: int) -> Result<(u32, u32, u32, int), (u8, Seq<char>)> {
    match value_from(data, pos, "width"@) {
        Err(m) => Err((0u8, m)),
        Ok((w, p1)) => match value_from(data, p1, "height"@) {
            Err(m) => Err((0u8, m)),
            Ok((h, p2)) => match value_from(data, p2, "maxval"@) {
                Err(m) => Err((0u8, m)),
                Ok((mx, p3)) => match header_fault(w, h, mx) {
                    Some(f) => Err(f),
                    None => Ok((w, h, mx, p3)),
                },
            },
        },
    }
}

/// Read and check the header after the magic.
fn read_header(data: &[u8], pos: usize) -> (r: Result<(u32, u32, u32, usize), Error>)
    requires
        pos <= data@.len(),
    ensures
        match header_from(data@, pos as int) {
            Ok((w, h, m, p)) => r matches Ok((w2, h2, m2, q)) && w2 == w && h2 == h && m2 == m && q == p
                && q <= data@.len(),
            Err((k, msg)) => r matches Err(e) && error_is(e, k, msg),
        },
{
    let (width, p1) = read_header_value(data, pos, "width")?;
    let (height, p2) = read_header_value(data, p1, "height")?;
    let (maxval, p3) = read_header_value(data, p2, "maxval")?;
    validate_header(width, height, maxval)?;
    Ok((width, height, maxval, p3))
}

/// One sample rescaled from 0..=maxval to 0..=255 (rounded), kept as it
/// is when maxval is 255, and taken to its low byte.
pub open spec fn rescale(v: int, maxval: u32) -> u8 {
    if maxval == 255 {
        v as u8
    } else {
        ((v * 255 + maxval / 2) / (maxval as int)) as u8
    }
}

/// The samples of raw P6 data: the bytes themselves when maxval is 255,
/// otherwise each sample (one byte, or two big-endian bytes) rescaled.
pub open spec fn normalized(raw: Seq<u8>, maxval: u32, bytes_per_sample: int) -> Seq<u8> {
    if maxval == 255 {
        raw
    } else if bytes_per_sample == 1 {
        Seq::new(raw.len(), |i: int| rescale(raw[i] as int, maxval))
    } else {
        Seq::new(raw.len() / 2, |i: int| rescale(raw[2 * i] * 256 + raw[2 * i + 1], maxval))
    }
}

/// Rescale raw P6 samples.
fn normalize_samples(raw: &[u8], maxval: u32, bytes_per_sample: usize) -> (out: Vec<u8>)
    requires
        1 <= maxval <= 65535,
        bytes_per_sample == 1 || bytes_per_sample == 2,
    ensures
        out@ == normalized(raw@, maxval, bytes_per_sample as int),
{
    if maxval == 255 {
        return vstd::slice::slice_to_vec(raw);
    }
    let mut out: Vec<u8> = Vec::new();
    if bytes_per_sample == 1 {
        let mut i: usize = 0;
        while i < raw.len()
            invariant
                i <= raw@.len(),
                1 <= maxval <= 65535,
                maxval != 255,
                bytes_per_sample == 1,
                out@ == normalized(raw@, maxval, 1).take(i as int),
            decreases raw@.len() - i,
        {
            let b = raw[i] as u32;
            out.push(((b * 255 + maxval / 2) / maxval) as u8);
            proof {
                assert(normalized(raw@, maxval, 1).take(i + 1) =~= normalized(raw@, maxval, 1).take(i as int).push(
                    rescale(raw@[i as int] as int, maxval),
                ));
            }
            i += 1;
        }
        assert(normalized(raw@, maxval, 1).take(raw@.len() as int) =~= normalized(raw@, maxval, 1));
    } else {
        let n = raw.len() / 2;
        let mut i: usize = 0;
        while i < n
            invariant
                i <= n,
                n == raw@.len() / 2,
                1 <= maxval <= 65535,
                maxval != 255,
                bytes_per_sample == 2,
                out@ == normalized(raw@, maxval, 2).take(i as int),
            decreases n - i,
        {
            assert(2 * i + 1 < raw.len());
            let hi = raw[2 * i] as u32;
            let lo = raw[2 * i + 1] as u32;
            let val = hi * 256 + lo;
            assert(val * 255 + maxval / 2 <= 65535 * 255 + 65535);
            out.push(((val * 255 + maxval / 2) / maxval) as u8);
            proof {
                assert(normalized(raw@, maxval, 2).take(i + 1) =~= normalized(raw@, maxval, 2).take(i as int).push(
                    rescale(raw@[2 * i as int] * 256 + raw@[2 * i + 1], maxval),
                ));
            }
            i += 1;
        }
        assert(normalized(raw@, maxval, 2).take(n as int) =~= normalized(raw@, maxval, 2));
    }
    out
}

/// A P6 image from `pos` (after the magic).
pub open spec fn p6_from(data: Seq<u8>, pos: int) -> Result<(u32, u32, Seq<u8>), (u8, Seq<char>)> {
    match header_from(data, pos) {
        Err(e) => Err(e),
        Ok((w, h, m, p)) => {
            let bps: int = if m < 256 { 1 } else { 2 };
            let size = w * h * 3 * bps;
            if p + size > data.len() {
                Err((2u8, Seq::empty()))
            } else {
                Ok((w, h, normalized(data.subrange(p, p + size), m, bps)))
            }
        },
    }
}

/// Read a P6 image from `pos`.
fn read_p6(data: &[u8], pos: usize) -> (r: Result<PpmImage, Error>)
    requires
        pos <= data@.len(),
    ensures
        ppm_result(r, p6_from(data@, pos as int)),
{
    let (width, height, maxval, start) = read_header(data, pos)?;
    assert(width as u64 * height as u64 <= 65535 * 65535) by (nonlinear_arith)
        requires
            width <= 65535,
            height <= 65535,
    ;
    let num_pixels: u64 = width as u64 * height as u64;
    let bytes_per_sample: usize = if maxval < 256 { 1 } else { 2 };
    let raw_size: u64 = num_pixels * 3 * bytes_per_sample as u64;
    if raw_size > (data.len() - start) as u64 {
        return Err(Error::Io(unexpected_eof()));
    }
    let raw = vstd::slice::slice_subrange(data, start, start + raw_size as usize);
    let out = normalize_samples(raw, maxval, bytes_per_sample);
    Ok(PpmImage { width, height, data: out })
}

/// The P3 samples from `pos`: `n` decimal tokens, each at most maxval and
/// rescaled, with the position after them; or the first error.
pub open spec fn p3_samples(data: Seq<u8>, pos: int, n: nat, maxval: u32) -> Result<(Seq<u8>, int), (u8, Seq<char>)>
    decreases n,
{
    if n == 0 {
        Ok((Seq::empty(), pos))
    } else {
        match p3_samples(data, pos, (n - 1) as nat, maxval) {
            Err(e) => Err(e),
            Ok((s, p)) => match token_from(data, p, Seq::empty()) {
                None => Err((0u8, eof_message())),
                Some((t, q)) => match spec_parse_unsigned(t, u32::MAX as nat) {
                    Err(f) => Err((0u8, "bad sample: "@ + fault_text(f))),
                    Ok(v) => if v > maxval {
                        Err((1u8, "sample "@ + spec_decimal(v) + " exceeds maxval "@ + spec_decimal(maxval as nat)))
                    } else {
                        Ok((s.push(rescale(v as int, maxval)), q))
                    },
                },
            },
        }
    }
}

/// A P3 image from `pos` (after the magic).
pub open spec fn p3_from(data: Seq<u8>, pos: int) -> Result<(u32, u32, Seq<u8>), (u8, Seq<char>)> {
    match header_from(data, pos) {
        Err(e) => Err(e),
        Ok((w, h, m, p)) => match p3_samples(data, p, (w * h * 3) as nat, m) {
            Err(e) => Err(e),
            Ok((s, _)) => Ok((w, h, s)),
        },
    }
}

/// Read a P3 image from `pos`.
fn read_p3(data: &[u8], pos: usize) -> (r: Result<PpmImage, Error>)
    requires
        pos <= data@.len(),
    ensures
        ppm_result(r, p3_from(data@, pos as int)),
{
    let (width, height, maxval, start) = read_header(data, pos)?;
    assert(width as u64 * height as u64 <= 65535 * 65535) by (nonlinear_arith)
        requires
            width <= 65535,
            height <= 65535,
    ;
    let num_samples: u64 = width as u64 * height as u64 * 3;
    let mut out: Vec<u8> = Vec::new();
    let mut p = start;
    let mut k: u64 = 0;
    while k < num_samples
        invariant
            k <= num_samples,
            num_samples == width * height * 3,
            1 <= maxval <= 65535,
            p <= data@.len(),
            p3_samples(data@, start as int, k as nat, maxval) == Ok::<(Seq<u8>, int), (u8, Seq<char>)>((out@, p as int)),
            header_from(data@, pos as int) == Ok::<(u32, u32, u32, int), (u8, Seq<char>)>((width, height, maxval, start as int)),
        decreases num_samples - k,
    {
        let (token, next) = match read_token(data, p) {
            Ok(t) => t,
            Err(e) => {
                proof {
                    lemma_p3_error_sticks(data@, start as int, (k + 1) as nat, num_samples as nat, maxval);
                }
                return Err(e);
            },
        };
        proof {
            lemma_token_end(data@, p as int, Seq::empty());
        }
        let val = match parse_unsigned(token.as_str(), u32::MAX) {
            Ok(v) => v,
            Err(f) => {
                proof {
                    lemma_p3_error_sticks(data@, start as int, (k + 1) as nat, num_samples as nat, maxval);
                }
                return Err(Error::InvalidFormat(String::from_str("bad sample: ").concat(f.message().as_str())));
            },
        };
        if val > maxval {
            proof {
                assert(token_from(data@, p as int, Seq::empty()) == Some((token@, next as int)));
                assert(spec_parse_unsigned(token@, u32::MAX as nat) == Ok::<nat, IntFault>(val as nat));
                assert(p3_samples(data@, start as int, (k + 1) as nat, maxval) is Err);
                lemma_p3_error_sticks(data@, start as int, (k + 1) as nat, num_samples as nat, maxval);
                assert(p3_samples(data@, start as int, num_samples as nat, maxval) is Err);
            }
            return Err(Error::ValueOutOfRange(
                String::from_str("sample ").concat(decimal_string(val as u64).as_str()).concat(
                    " exceeds maxval ",
                ).concat(decimal_string(maxval as u64).as_str()),
            ));
        }
        let normalized = if maxval == 255 {
            val as u8
        } else {
            ((val * 255 + maxval / 2) / maxval) as u8
        };
        out.push(normalized);
        p = next;
        k += 1;
    }
    Ok(PpmImage { width, height, data: out })
}

/// An error among the first samples is the error of all of them.
proof fn lemma_p3_error_sticks(data: Seq<u8>, pos: int, m: nat, n: nat, maxval: u32)
    requires
        m <= n,
        p3_samples(data, pos, m, maxval) is Err,
    ensures
        p3_samples(data, pos, n, maxval) == p3_samples(data, pos, m, maxval),
    decreases n - m,
{
    if m < n {
        lemma_p3_error_sticks(data, pos, m, (n - 1) as nat, maxval);
    }
}

/// The outcome `s` (image, or error kind and message) describes `r`.
pub open spec fn ppm_result(r: Result<PpmImage, Error>, s: Result<(u32, u32, Seq<u8>), (u8, Seq<char>)>) -> bool {
    match s {
        Ok((w, h, d)) => r matches Ok(img) && img.width == w && img.height == h && img.data@ == d,
        Err((k, m)) => r matches Err(e) && error_is(e, k, m),
    }
}

/// A PPM file's outcome: P3 or P6 after the magic token, or an error.
pub open spec fn ppm_from(data: Seq<u8>) -> Result<(u32, u32, Seq<u8>), (u8, Seq<char>)> {
    match token_from(data, 0, Seq::empty()) {
        None => Err((0u8, eof_message())),
        Some((magic, p)) => if magic == seq!['P', '3'] {
            p3_from(data, p)
        } else if magic == seq!['P', '6'] {
            p6_from(data, p)
        } else {
            Err((0u8, "expected P3 or P6, got '"@ + magic + "'"@))
        },
    }
}

/// Decode a PPM file held in memory.
///
/// The magic token selects P3 or P6; anything else is `InvalidFormat`.
/// Header errors, sample errors and missing P6 data are reported as
/// `ppm_from` says.
pub fn parse_ppm(data: &[u8]) -> (r: Result<PpmImage, Error>)
    ensures
        ppm_result(r, ppm_from(data@)),
{
    let (magic, next) = read_token(data, 0)?;
    proof {
        lemma_token_end(data@, 0, Seq::empty());
    }
    let is_p = magic.as_str().unicode_len() == 2 && magic.as_str().get_char(0) == 'P';
    if is_p && magic.as_str().get_char(1) == '3' {
        proof {
            assert(magic@ =~= seq!['P', '3']);
        }
        read_p3(data, next)
    } else if is_p && magic.as_str().get_char(1) == '6' {
        proof {
            assert(magic@ =~= seq!['P', '6']);
        }
        read_p6(data, next)
    } else {
        Err(Error::InvalidFormat(
            String::from_str("expected P3 or P6, got '").concat(magic.as_str()).concat("'"),
        ))
    }
}

/// The bytes of ASCII text.
pub open spec fn ascii(s: Seq<char>) -> Seq<u8> {
    Seq::new(s.len(), |i: int| s[i] as u8)
}

/// A P6 file with maxval 255: the magic, the width, the height and 255 in
/// decimal, each followed by one whitespace byte, then the samples.
pub open spec fn p6_file(width: nat, height: nat, samples: Seq<u8>) -> Seq<u8> {
    ascii(ppm_header('6', width, height)) + samples
}

/// A character of a header token: a digit or `P`.
pub open spec fn token_char(c: char) -> bool {
    ('0' <= c && c <= '9') || c == 'P'
}

/// A token written at `p` and ended by a whitespace byte is read back.
proof fn lemma_token_at(data: Seq<u8>, p: int, s: Seq<char>, k: int)
    requires
        0 <= p,
        0 <= k <= s.len(),
        1 <= s.len(),
        p + s.len() < data.len(),
        forall|i: int| 0 <= i < s.len() ==> #[trigger] token_char(s[i]) && data[p + i] == s[i] as u8,
        is_space(data[p + s.len()]),
    ensures
        token_from(data, p + k, s.take(k)) == Some((s, p + s.len() + 1)),
    decreases s.len() - k,
{
    if k == s.len() {
        assert(s.take(k) =~= s);
    } else {
        assert(token_char(s[k]) && data[p + k] == s[k] as u8);
        assert((s[k] as u8) as char == s[k]);
        assert(s.take(k).push(s[k]) =~= s.take(k + 1));
        lemma_token_at(data, p, s, k + 1);
    }
}

/// The decimal rendering of a value is made of token characters.
proof fn lemma_decimal_token(v: nat)
    ensures
        spec_decimal(v).len() >= 1,
        forall|i: int| 0 <= i < spec_decimal(v).len() ==> #[trigger] token_char(spec_decimal(v)[i]),
    decreases v,
{
    if v >= 10 {
        lemma_decimal_token(v / 10);
        let d = spec_decimal(v / 10);
        assert forall|i: int| 0 <= i < spec_decimal(v).len() implies #[trigger] token_char(spec_decimal(v)[i]) by {
            if i < d.len() {
                assert(spec_decimal(v)[i] == d[i]);
            }
        }
    }
}

/// The token written at `p` of the text `t` (bytes `ascii(t)` followed by
/// anything) is read back as the characters `t[p..p + n]`.
proof fn lemma_text_token(t: Seq<char>, rest: Seq<u8>, p: int, n: int)
    requires
        0 <= p,
        1 <= n,
        p + n < t.len(),
        forall|i: int| p <= i < p + n ==> #[trigger] token_char(t[i]),
        t[p + n] == ' ' || t[p + n] == '\n',
    ensures
        token_from(ascii(t) + rest, p, Seq::empty()) == Some((t.subrange(p, p + n), p + n + 1)),
{
    let data = ascii(t) + rest;
    let s = t.subrange(p, p + n);
    assert forall|i: int| 0 <= i < s.len() implies #[trigger] token_char(s[i]) && data[p + i] == s[i] as u8 by {
        assert(s[i] == t[p + i]);
        assert(token_char(t[p + i]));
    }
    assert(data[p + n] == t[p + n] as u8);
    lemma_token_at(data, p, s, 0);
    assert(s.take(0) =~= Seq::<char>::empty());
}

proof fn lemma_decimal_255()
    ensures
        spec_decimal(255) == seq!['2', '5', '5'],
{
    reveal_with_fuel(spec_decimal, 4);
    assert(spec_decimal(255) =~= seq!['2', '5', '5']);
}

/// The header text of a PPM file of magic `P` + `kind` with maxval 255.
pub open spec fn ppm_header(kind: char, width: nat, height: nat) -> Seq<char> {
    seq!['P', kind, '\n'] + spec_decimal(width) + seq![' '] + spec_decimal(height) + seq!['\n']
        + spec_decimal(255) + seq!['\n']
}

/// Where the characters of the header text come from.
proof fn lemma_header_chars(kind: char, width: nat, height: nat)
    ensures
        ({
            let t = ppm_header(kind, width, height);
            let dw = spec_decimal(width);
            let dh = spec_decimal(height);
            let ph: int = 4 + dw.len() as int;
            let pm: int = ph + dh.len() + 1;
            &&& t.len() == pm + 4
            &&& t[0] == 'P' && t[1] == kind && t[2] == '\n'
            &&& forall|i: int| 0 <= i < dw.len() ==> #[trigger] t[3 + i] == dw[i]
            &&& t[3 + dw.len() as int] == ' '
            &&& forall|i: int| 0 <= i < dh.len() ==> #[trigger] t[ph + i] == dh[i]
            &&& t[ph + dh.len() as int] == '\n'
            &&& t[pm] == '2' && t[pm + 1] == '5' && t[pm + 2] == '5' && t[pm + 3] == '\n'
        }),
{
    lemma_decimal_255();
    let dw = spec_decimal(width);
    let dh = spec_decimal(height);
    let a = seq!['P', kind, '\n'] + dw;
    let b = a + seq![' '] + dh;
    let c = b + seq!['\n'];
    let d = c + spec_decimal(255);
    assert(forall|i: int| 0 <= i < dw.len() ==> #[trigger] a[3 + i] == dw[i]);
    assert(forall|i: int| 0 <= i < dh.len() ==> #[trigger] b[4 + dw.len() + i] == dh[i]);
}

/// The four tokens of the header of a PPM file with maxval 255.
proof fn lemma_header_tokens(kind: char, width: nat, height: nat, samples: Seq<u8>)
    requires
        '0' <= kind <= '9',
    ensures
        ({
            let data = ascii(ppm_header(kind, width, height)) + samples;
            let dw = spec_decimal(width);
            let dh = spec_decimal(height);
            let ph: int = 4 + dw.len() as int;
            let pm: int = ph + dh.len() + 1;
            &&& token_from(data, 0, Seq::empty()) == Some((seq!['P', kind], 3int))
            &&& token_from(data, 3, Seq::empty()) == Some((dw, ph))
            &&& token_from(data, ph, Seq::empty()) == Some((dh, pm))
            &&& token_from(data, pm, Seq::empty()) == Some((seq!['2', '5', '5'], pm + 4))
        }),
{
    let t = ppm_header(kind, width, height);
    let dw = spec_decimal(width);
    let dh = spec_decimal(height);
    let ph: int = 4 + dw.len() as int;
    let pm: int = ph + dh.len() + 1;
    lemma_header_chars(kind, width, height);
    lemma_decimal_token(width);
    lemma_decimal_token(height);
    lemma_text_token(t, samples, 0, 2);
    assert(t.subrange(0, 2) =~= seq!['P', kind]);
    assert forall|i: int| 3 <= i < 3 + dw.len() implies #[trigger] token_char(t[i]) by {
        assert(t[3 + (i - 3)] == dw[i - 3]);
    }
    lemma_text_token(t, samples, 3, dw.len() as int);
    assert(t.subrange(3, 3 + dw.len() as int) =~= dw);
    assert forall|i: int| ph <= i < ph + dh.len() implies #[trigger] token_char(t[i]) by {
        assert(t[ph + (i - ph)] == dh[i - ph]);
    }
    lemma_text_token(t, samples, ph, dh.len() as int);
    assert(t.subrange(ph, ph + dh.len() as int) =~= dh);
    lemma_text_token(t, samples, pm, 3);
    assert(t.subrange(pm, pm + 3) =~= seq!['2', '5', '5']);
}

/// Reading a P6 file with maxval 255 gives back its dimensions and its
/// samples; bytes after the samples are ignored.
pub proof fn lemma_read_p6_file(width: u32, height: u32, samples: Seq<u8>)
    requires
        1 <= width <= 65535,
        1 <= height <= 65535,
        samples.len() >= width * height * 3,
    ensures
        ppm_from(p6_file(width as nat, height as nat, samples)) == Ok::<(u32, u32, Seq<u8>), (u8, Seq<char>)>(
            (width, height, samples.subrange(0, width * height * 3)),
        ),
{
    let t = ppm_header('6', width as nat, height as nat);
    let data = ascii(t) + samples;
    lemma_decimal_255();
    assert(data == p6_file(width as nat, height as nat, samples));
    lemma_header_tokens('6', width as nat, height as nat, samples);
    lemma_header_chars('6', width as nat, height as nat);
    crate::text::lemma_parse_decimal(width as nat, u32::MAX as nat);
    crate::text::lemma_parse_decimal(height as nat, u32::MAX as nat);
    crate::text::lemma_parse_decimal(255, u32::MAX as nat);
    let ps: int = t.len() as int;
    let size: int = width * height * 3;
    assert(data.subrange(ps, ps + size) =~= samples.subrange(0, size));
}

/// The samples of a P3 file: each in decimal, followed by a space.
pub open spec fn p3_body(samples: Seq<u8>) -> Seq<char>
    decreases samples.len(),
{
    if samples.len() == 0 {
        Seq::empty()
    } else {
        p3_body(samples.drop_last()) + spec_decimal(samples.last() as nat) + seq![' ']
    }
}

/// A P3 file with maxval 255: the header as in P6, then the samples in
/// decimal, each followed by a space.
pub open spec fn p3_file(width: nat, height: nat, samples: Seq<u8>) -> Seq<u8> {
    ascii(ppm_header('3', width, height) + p3_body(samples))
}

proof fn lemma_ascii_append(a: Seq<char>, b: Seq<char>)
    ensures
        ascii(a + b) == ascii(a) + ascii(b),
{
    assert(ascii(a + b) =~= ascii(a) + ascii(b));
}

/// The body of the first `k` samples begins the body of all of them.
proof fn lemma_p3_body_prefix(samples: Seq<u8>, k: int)
    requires
        0 <= k <= samples.len(),
    ensures
        p3_body(samples.take(k)).len() <= p3_body(samples).len(),
        p3_body(samples).take(p3_body(samples.take(k)).len() as int) == p3_body(samples.take(k)),
    decreases samples.len(),
{
    if k == samples.len() {
        assert(samples.take(k) =~= samples);
        assert(p3_body(samples).take(p3_body(samples).len() as int) =~= p3_body(samples));
    } else {
        let d = samples.drop_last();
        lemma_p3_body_prefix(d, k);
        assert(d.take(k) =~= samples.take(k));
        let b = p3_body(samples);
        let bd = p3_body(d);
        let bk = p3_body(samples.take(k));
        assert(b == bd + spec_decimal(samples.last() as nat) + seq![' ']);
        assert(b.take(bk.len() as int) =~= bd.take(bk.len() as int));
    }
}

/// The samples of a P3 file are read back one token at a time.
proof fn lemma_p3_samples_read(width: nat, height: nat, samples: Seq<u8>, k: nat)
    requires
        k <= samples.len(),
    ensures
        p3_samples(
            p3_file(width, height, samples),
            ppm_header('3', width, height).len() as int,
            k,
            255,
        ) == Ok::<(Seq<u8>, int), (u8, Seq<char>)>(
            (samples.take(k as int), (ppm_header('3', width, height).len() + p3_body(samples.take(k as int)).len()) as int),
        ),
    decreases k,
{
    let hd = ppm_header('3', width, height);
    let t = hd + p3_body(samples);
    let data = p3_file(width, height, samples);
    if k == 0 {
        assert(samples.take(0) =~= Seq::<u8>::empty());
    } else {
        lemma_p3_samples_read(width, height, samples, (k - 1) as nat);
        let front = samples.take(k - 1);
        let now = samples.take(k as int);
        assert(now.drop_last() =~= front);
        assert(now.last() == samples[k - 1]);
        let v = samples[k - 1];
        let dv = spec_decimal(v as nat);
        let bf = p3_body(front);
        let bn = p3_body(now);
        assert(bn == bf + dv + seq![' ']);
        lemma_p3_body_prefix(samples, k as int);
        let p: int = (hd.len() + bf.len()) as int;
        let e: int = dv.len() as int;
        let be: int = bf.len() as int;
        lemma_decimal_token(v as nat);
        assert forall|i: int| p <= i < p + e implies #[trigger] token_char(t[i]) by {
            assert(t[i] == p3_body(samples)[i - hd.len()]);
            assert(p3_body(samples)[i - hd.len()] == bn[i - hd.len()]);
            assert(bn[i - hd.len()] == dv[i - p]);
        }
        assert(t[p + e] == ' ') by {
            assert(t[p + e] == p3_body(samples)[be + e]);
            assert(p3_body(samples)[be + e] == bn[be + e]);
        }
        lemma_text_token(t, Seq::empty(), p, e);
        assert(ascii(t) + Seq::<u8>::empty() =~= data);
        assert(t.subrange(p, p + e) =~= dv) by {
            assert forall|i: int| 0 <= i < e implies t.subrange(p, p + e)[i] == dv[i] by {
                assert(t[p + i] == p3_body(samples)[be + i]);
                assert(p3_body(samples)[be + i] == bn[be + i]);
            }
        }
        crate::text::lemma_parse_decimal(v as nat, u32::MAX as nat);
        assert(rescale(v as int, 255) == v);
        assert(front.push(v) =~= now);
    }
}

/// Reading a P3 file with maxval 255 gives back its dimensions and its
/// samples.
pub proof fn lemma_read_p3_file(width: u32, height: u32, samples: Seq<u8>)
    requires
        1 <= width <= 65535,
        1 <= height <= 65535,
        samples.len() == width * height * 3,
    ensures
        ppm_from(p3_file(width as nat, height as nat, samples)) == Ok::<(u32, u32, Seq<u8>), (u8, Seq<char>)>(
            (width, height, samples),
        ),
{
    let hd = ppm_header('3', width as nat, height as nat);
    let body = p3_body(samples);
    lemma_ascii_append(hd, body);
    lemma_decimal_255();
    lemma_header_tokens('3', width as nat, height as nat, ascii(body));
    lemma_header_chars('3', width as nat, height as nat);
    crate::text::lemma_parse_decimal(width as nat, u32::MAX as nat);
    crate::text::lemma_parse_decimal(height as nat, u32::MAX as nat);
    crate::text::lemma_parse_decimal(255, u32::MAX as nat);
    lemma_p3_samples_read(width as nat, height as nat, samples, samples.len());
    assert(samples.take(samples.len() as int) =~= samples);
}

} // verus!
