//! Small text helpers used to build messages.
use vstd::prelude::*;

verus! {

/// The decimal digit character for `d` (0..=9).
pub open spec fn digit_char(d: nat) -> char {
    if d == 0 { '0' } else if d == 1 { '1' } else if d == 2 { '2' } else if d == 3 { '3' }
    else if d == 4 { '4' } else if d == 5 { '5' } else if d == 6 { '6' } else if d == 7 { '7' }
    else if d == 8 { '8' } else { '9' }
}

/// Decimal rendering of `v` without leading zeros (`"0"` for zero).
pub open spec fn spec_decimal(v: nat) -> Seq<char>
    decreases v,
{
    if v < 10 {
        seq![digit_char(v)]
    } else {
        spec_decimal(v / 10).push(digit_char(v % 10))
    }
}

/// Decimal rendering of a signed value: a minus sign before the digits of
/// the magnitude when it is negative.
pub open spec fn spec_signed_decimal(v: int) -> Seq<char> {
    if v < 0 {
        seq!['-'] + spec_decimal((-v) as nat)
    } else {
        spec_decimal(v as nat)
    }
}

/// The upper-case hexadecimal digit character for `d` (0..=15).
pub open spec fn hex_char(d: nat) -> char {
    if d < 10 {
        digit_char(d)
    } else if d == 10 {
        'A'
    } else if d == 11 {
        'B'
    } else if d == 12 {
        'C'
    } else if d == 13 {
        'D'
    } else if d == 14 {
        'E'
    } else {
        'F'
    }
}

/// The `n` low hexadecimal digits of `v`, most significant first.
pub open spec fn spec_hex(v: nat, n: nat) -> Seq<char>
    decreases n,
{
    if n == 0 {
        Seq::empty()
    } else {
        spec_hex(v / 16, (n - 1) as nat) + seq![hex_char(v % 16)]
    }
}

/// The upper-case hexadecimal digit of `d` (0..=15).
pub fn hex_digit(d: u8) -> (s: &'static str)
    requires
        d < 16,
    ensures
        s@ == seq![hex_char(d as nat)],
{
    proof {
        reveal_strlit("0");
        reveal_strlit("1");
        reveal_strlit("2");
        reveal_strlit("3");
        reveal_strlit("4");
        reveal_strlit("5");
        reveal_strlit("6");
        reveal_strlit("7");
        reveal_strlit("8");
        reveal_strlit("9");
        reveal_strlit("A");
        reveal_strlit("B");
        reveal_strlit("C");
        reveal_strlit("D");
        reveal_strlit("E");
        reveal_strlit("F");
    }
    let s = match d {
        0 => "0",
        1 => "1",
        2 => "2",
        3 => "3",
        4 => "4",
        5 => "5",
        6 => "6",
        7 => "7",
        8 => "8",
        9 => "9",
        10 => "A",
        11 => "B",
        12 => "C",
        13 => "D",
        14 => "E",
        _ => "F",
    };
    assert(s@ =~= seq![hex_char(d as nat)]);
    s
}

/// The `width` low hexadecimal digits of `v`, upper case, most significant
/// first (zero-padded).
pub fn hex_string(v: u32, width: usize) -> (s: String)
    ensures
        s@ == spec_hex(v as nat, width as nat),
    decreases width,
{
    if width == 0 {
        String::new()
    } else {
        let high = hex_string(v / 16, width - 1);
        high.concat(hex_digit((v % 16) as u8))
    }
}

/// Renders an unsigned integer in decimal: its digits, without sign or
/// leading zeros (`"0"` for zero).
pub(crate) fn decimal_string(v: u64) -> (s: String)
    ensures
        s@ == spec_decimal(v as nat),
    decreases v,
{
    if v < 10 {
        let s = String::from_str(hex_digit(v as u8));
        proof {
            assert(s@ =~= spec_decimal(v as nat));
        }
        s
    } else {
        let high = decimal_string(v / 10);
        let s = high.concat(hex_digit((v % 10) as u8));
        proof {
            assert(s@ =~= spec_decimal(v as nat));
        }
        s
    }
}

/// Renders a signed integer in decimal: a minus sign before the digits of
/// the magnitude when it is negative.
pub(crate) fn signed_decimal_string(v: i64) -> (s: String)
    ensures
        s@ == spec_signed_decimal(v as int),
{
    if v < 0 {
        let magnitude: u64 = (0i128 - v as i128) as u64;
        proof {
            reveal_strlit("-");
        }
        let s = String::from_str("-").concat(decimal_string(magnitude).as_str());
        proof {
            assert(s@ =~= spec_signed_decimal(v as int));
        }
        s
    } else {
        decimal_string(v as u64)
    }
}

/// Why a decimal number could not be parsed.
#[derive(Debug, Clone, Copy, PartialEq, Eq, Structural)]
pub enum IntFault {
    /// The text is empty.
    Empty,
    /// A character is not a decimal digit (or a lone sign).
    InvalidDigit,
    /// The value exceeds the maximum of the target type.
    PosOverflow,
}

/// The description of a parse fault, as the standard library words it.
pub open spec fn fault_text(f: IntFault) -> Seq<char> {
    match f {
        IntFault::Empty => "cannot parse integer from empty string"@,
        IntFault::InvalidDigit => "invalid digit found in string"@,
        IntFault::PosOverflow => "number too large to fit in target type"@,
    }
}

impl IntFault {
    /// The description of the fault.
    pub fn message(&self) -> (s: String)
        ensures
            s@ == fault_text(*self),
    {
        match self {
            IntFault::Empty => String::from_str("cannot parse integer from empty string"),
            IntFault::InvalidDigit => String::from_str("invalid digit found in string"),
            IntFault::PosOverflow => String::from_str("number too large to fit in target type"),
        }
    }
}

/// `c` is a decimal digit.
pub open spec fn is_digit(c: char) -> bool {
    '0' <= c && c <= '9'
}

/// Parse the digits of `s` from index `i` on, `acc` being the value of the
/// digits before: the first non-digit is an `InvalidDigit`, a value above
/// `max` at any digit a `PosOverflow`.
pub open spec fn parse_digits_from(s: Seq<char>, i: int, acc: nat, max: nat) -> Result<nat, IntFault>
    decreases s.len() - i,
{
    if i >= s.len() {
        Ok(acc)
    } else if !is_digit(s[i]) {
        Err(IntFault::InvalidDigit)
    } else if acc * 10 + (s[i] as int - '0' as int) > max {
        Err(IntFault::PosOverflow)
    } else {
        parse_digits_from(s, i + 1, (acc * 10 + (s[i] as int - '0' as int)) as nat, max)
    }
}

/// An unsigned decimal number no larger than `max`: an optional `+`, then
/// digits, read left to right.
pub open spec fn spec_parse_unsigned(s: Seq<char>, max: nat) -> Result<nat, IntFault> {
    if s.len() == 0 {
        Err(IntFault::Empty)
    } else if s[0] == '+' {
        if s.len() == 1 { Err(IntFault::InvalidDigit) } else { parse_digits_from(s, 1, 0, max) }
    } else {
        parse_digits_from(s, 0, 0, max)
    }
}

/// `r` is the exec form of the spec result `p`.
pub open spec fn parsed_as(r: Result<u32, IntFault>, p: Result<nat, IntFault>) -> bool {
    match r {
        Ok(v) => p == Ok::<nat, IntFault>(v as nat),
        Err(f) => p == Err::<nat, IntFault>(f),
    }
}

proof fn lemma_parse_bounded(s: Seq<char>, i: int, acc: nat, max: nat)
    requires
        acc <= max,
    ensures
        parse_digits_from(s, i, acc, max) matches Ok(v) ==> v <= max,
    decreases s.len() - i,
{
    if i < s.len() && is_digit(s[i]) && acc * 10 + (s[i] as int - '0' as int) <= max {
        lemma_parse_bounded(s, i + 1, (acc * 10 + (s[i] as int - '0' as int)) as nat, max);
    }
}

/// The parse of digits `s` extended by one character.
proof fn lemma_parse_push(s: Seq<char>, c: char, i: int, acc: nat, max: nat)
    requires
        0 <= i <= s.len(),
    ensures
        parse_digits_from(s.push(c), i, acc, max) == match parse_digits_from(s, i, acc, max) {
            Ok(a) => if !is_digit(c) {
                Err(IntFault::InvalidDigit)
            } else if a * 10 + (c as int - '0' as int) > max {
                Err(IntFault::PosOverflow)
            } else {
                Ok((a * 10 + (c as int - '0' as int)) as nat)
            },
            Err(f) => Err(f),
        },
    decreases s.len() - i,
{
    let t = s.push(c);
    if i < s.len() {
        assert(t[i] == s[i]);
        if is_digit(s[i]) && acc * 10 + (s[i] as int - '0' as int) <= max {
            lemma_parse_push(s, c, i + 1, (acc * 10 + (s[i] as int - '0' as int)) as nat, max);
        }
    } else {
        assert(t[i] == c);
        let nacc = (acc * 10 + (c as int - '0' as int)) as nat;
        assert(parse_digits_from(t, i + 1, nacc, max) == Ok::<nat, IntFault>(nacc));
    }
}

/// The decimal rendering of `v` is made of digits, the first one too.
proof fn lemma_decimal_digits(v: nat)
    ensures
        spec_decimal(v).len() >= 1,
        forall|i: int| 0 <= i < spec_decimal(v).len() ==> #[trigger] is_digit(spec_decimal(v)[i]),
    decreases v,
{
    if v >= 10 {
        lemma_decimal_digits(v / 10);
        let d = spec_decimal(v / 10);
        assert forall|i: int| 0 <= i < spec_decimal(v).len() implies #[trigger] is_digit(spec_decimal(v)[i]) by {
            if i < d.len() {
                assert(spec_decimal(v)[i] == d[i]);
            }
        }
    }
}

/// Parsing the decimal rendering of a value gives the value back.
pub proof fn lemma_parse_decimal(v: nat, max: nat)
    requires
        v <= max,
    ensures
        spec_parse_unsigned(spec_decimal(v), max) == Ok::<nat, IntFault>(v),
    decreases v,
{
    lemma_decimal_digits(v);
    if v < 10 {
        assert(parse_digits_from(spec_decimal(v), 1, v, max) == Ok::<nat, IntFault>(v));
    } else {
        lemma_parse_decimal(v / 10, max);
        lemma_decimal_digits(v / 10);
        let d = spec_decimal(v / 10);
        assert(d[0] != '+');
        lemma_parse_push(d, digit_char(v % 10), 0, 0, max);
        assert(spec_decimal(v)[0] == d[0]);
    }
}

/// Parse an unsigned decimal number of at most `max`, as `str::parse` does
/// for unsigned integer types: an optional leading `+`, then one or more
/// decimal digits.
pub fn parse_unsigned(s: &str, max: u32) -> (r: Result<u32, IntFault>)
    ensures
        parsed_as(r, spec_parse_unsigned(s@, max as nat)),
{
    let n = s.unicode_len();
    if n == 0 {
        return Err(IntFault::Empty);
    }
    let mut i: usize = 0;
    if s.get_char(0) == '+' {
        if n == 1 {
            return Err(IntFault::InvalidDigit);
        }
        i = 1;
    }
    let ghost target = spec_parse_unsigned(s@, max as nat);
    let mut acc: u32 = 0;
    proof {
        lemma_parse_bounded(s@, i as int, 0, max as nat);
    }
    while i < n
        invariant
            n == s@.len(),
            i <= n,
            acc <= max,
            target == spec_parse_unsigned(s@, max as nat),
            parse_digits_from(s@, i as int, acc as nat, max as nat) == target,
        decreases n - i,
    {
        let c = s.get_char(i);
        if !('0' <= c && c <= '9') {
            return Err(IntFault::InvalidDigit);
        }
        let d = (c as u32) - ('0' as u32);
        let next: u64 = acc as u64 * 10 + d as u64;
        if next > max as u64 {
            return Err(IntFault::PosOverflow);
        }
        acc = next as u32;
        i = i + 1;
    }
    Ok(acc)
}

} // verus!
