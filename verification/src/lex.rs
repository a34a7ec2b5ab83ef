//! The lexical scanner: a borrowed byte slice is turned into a stream of
//! tokens, one `next` call at a time.
//!
//! The spec functions in this module define, over the byte sequence, which
//! token starts at a given cursor position and where it ends; `Lex::next`
//! is proved to return exactly that token and to leave the cursor at its
//! end.  Malformed input never stops the scanner: it yields an `Error`
//! token whose span runs from the offending token's start to the end of
//! the input, and after the end of input it yields `End` tokens forever.

use crate::json::JsonNumber;
use vstd::prelude::*;

verus! {

/// Saturation bound for the decimal-exponent arithmetic of number
/// literals: an explicit exponent, and the count of fraction digits, are
/// each capped at this magnitude.
pub const MAX_EXPONENT_MAGNITUDE: u64 = 1000000000;

/// The classification of a token.  `String` carries the decoded bytes of
/// the literal (escapes resolved, UTF-8 copied through); `Number` the
/// decoded literal; `Error` marks a malformed token; `End` the end of the
/// input.
#[derive(Debug)]
pub enum TokenKind {
    LeftBrace,
    RightBrace,
    LeftBracket,
    RightBracket,
    Colon,
    Comma,
    String(Vec<u8>),
    Number(JsonNumber),
    Bool(bool),
    Null,
    Error,
    End,
}

/// A token: its kind together with the byte span `start..end` it covers
/// in the input.
#[derive(Debug)]
pub struct Token {
    pub start: usize,
    pub end: usize,
    pub kind: TokenKind,
}

/// The mathematical form of a token kind.
pub enum SpecTokenKind {
    LeftBrace,
    RightBrace,
    LeftBracket,
    RightBracket,
    Colon,
    Comma,
    String(Seq<u8>),
    Number(JsonNumber),
    Bool(bool),
    Null,
    Error,
    End,
}

/// The mathematical form of a token.
pub struct SpecToken {
    pub start: int,
    pub end: int,
    pub kind: SpecTokenKind,
}

impl View for TokenKind {
    type V = SpecTokenKind;

    open spec fn view(&self) -> SpecTokenKind {
        match self {
            TokenKind::LeftBrace => SpecTokenKind::LeftBrace,
            TokenKind::RightBrace => SpecTokenKind::RightBrace,
            TokenKind::LeftBracket => SpecTokenKind::LeftBracket,
            TokenKind::RightBracket => SpecTokenKind::RightBracket,
            TokenKind::Colon => SpecTokenKind::Colon,
            TokenKind::Comma => SpecTokenKind::Comma,
            TokenKind::String(s) => SpecTokenKind::String(s@),
            TokenKind::Number(n) => SpecTokenKind::Number(*n),
            TokenKind::Bool(b) => SpecTokenKind::Bool(*b),
            TokenKind::Null => SpecTokenKind::Null,
            TokenKind::Error => SpecTokenKind::Error,
            TokenKind::End => SpecTokenKind::End,
        }
    }
}

impl View for Token {
    type V = SpecToken;

    open spec fn view(&self) -> SpecToken {
        SpecToken { start: self.start as int, end: self.end as int, kind: self.kind@ }
    }
}

/// Insignificant whitespace between tokens: space, tab, CR, LF.
pub open spec fn is_ws(b: u8) -> bool {
    b == 0x20 || b == 0x09 || b == 0x0d || b == 0x0a
}

/// The first position at or after `i` that does not hold whitespace.
pub open spec fn ws_end(s: Seq<u8>, i: int) -> int
    decreases s.len() - i,
{
    if 0 <= i < s.len() && is_ws(s[i]) {
        ws_end(s, i + 1)
    } else {
        i
    }
}

/// An ASCII decimal digit.
pub open spec fn is_digit(b: u8) -> bool {
    0x30 <= b <= 0x39
}

/// The first position at or after `i` that does not hold a digit.
pub open spec fn digits_end(s: Seq<u8>, i: int) -> int
    decreases s.len() - i,
{
    if 0 <= i < s.len() && is_digit(s[i]) {
        digits_end(s, i + 1)
    } else {
        i
    }
}

/// The value of a digit string read as a decimal integer.
pub open spec fn digit_seq_val(d: Seq<u8>) -> int
    decreases d,
{
    if d.len() == 0 {
        0
    } else {
        10 * digit_seq_val(d.drop_last()) + (d.last() - 0x30)
    }
}

/// `v` capped at `m`.
pub open spec fn cap(v: int, m: int) -> int {
    if v > m {
        m
    } else {
        v
    }
}

/// An ASCII hex digit.
pub open spec fn is_hex_digit(b: u8) -> bool {
    is_digit(b) || (0x41 <= b <= 0x46) || (0x61 <= b <= 0x66)
}

/// The value of one hex digit.
pub open spec fn hex_digit_val(b: u8) -> int {
    if is_digit(b) {
        b - 0x30
    } else if 0x41 <= b <= 0x46 {
        b - 0x41 + 10
    } else {
        b - 0x61 + 10
    }
}

/// The end of a run of at most `max` hex digits starting at `i`.
pub open spec fn hex_run(s: Seq<u8>, i: int, max: int) -> int
    decreases max,
{
    if max <= 0 || !(0 <= i < s.len()) || !is_hex_digit(s[i]) {
        i
    } else {
        hex_run(s, i + 1, max - 1)
    }
}

/// Whether four hex digits stand at `i`.
pub open spec fn unit_ok(s: Seq<u8>, i: int) -> bool {
    hex_run(s, i, 4) == i + 4
}

/// The UTF-16 code unit denoted by the four hex digits at `i`.
pub open spec fn unit_val(s: Seq<u8>, i: int) -> int {
    ((hex_digit_val(s[i]) * 16 + hex_digit_val(s[i + 1])) * 16 + hex_digit_val(s[i + 2])) * 16
        + hex_digit_val(s[i + 3])
}

/// A Unicode scalar value: in range and not a surrogate code point.
pub open spec fn is_scalar_value(v: int) -> bool {
    (0 <= v < 0xd800) || (0xdfff < v <= 0x10ffff)
}

/// The scalar value decoded by the escape body starting at `i` (the
/// position just after `\u`), paired with the position after everything
/// the escape consumed.  A high surrogate combines with an immediately
/// following low-surrogate escape; every failure in the sequence decodes
/// to the replacement character U+FFFD.
pub open spec fn esc_u(s: Seq<u8>, i: int) -> (int, int) {
    if unit_ok(s, i) {
        let v1 = unit_val(s, i);
        if 0xd800 <= v1 <= 0xdbff {
            if i + 6 <= s.len() && s[i + 4] == 0x5c && s[i + 5] == 0x75 {
                if unit_ok(s, i + 6) {
                    let v2 = unit_val(s, i + 6);
                    if 0xdc00 <= v2 <= 0xdfff {
                        (0x10000 + (v1 - 0xd800) * 0x400 + (v2 - 0xdc00), i + 10)
                    } else {
                        (0xfffd, i + 10)
                    }
                } else {
                    (0xfffd, hex_run(s, i + 6, 4))
                }
            } else {
                (0xfffd, i + 4)
            }
        } else {
            (if is_scalar_value(v1) { v1 } else { 0xfffd }, i + 4)
        }
    } else {
        (0xfffd, hex_run(s, i, 4))
    }
}

/// The UTF-8 encoding of a scalar value.
pub open spec fn utf8_enc(v: int) -> Seq<u8> {
    if v < 0x80 {
        seq![v as u8]
    } else if v < 0x800 {
        seq![(0xc0 + v / 0x40) as u8, (0x80 + v % 0x40) as u8]
    } else if v < 0x10000 {
        seq![(0xe0 + v / 0x1000) as u8, (0x80 + (v / 0x40) % 0x40) as u8, (0x80 + v % 0x40) as u8]
    } else {
        seq![
            (0xf0 + v / 0x40000) as u8,
            (0x80 + (v / 0x1000) % 0x40) as u8,
            (0x80 + (v / 0x40) % 0x40) as u8,
            (0x80 + v % 0x40) as u8,
        ]
    }
}

/// The one-byte escapes `\" \\ \/ \b \f \n \r \t`.
pub open spec fn is_simple_escape(b: u8) -> bool {
    b == 0x22 || b == 0x5c || b == 0x2f || b == 0x62 || b == 0x66 || b == 0x6e || b == 0x72
        || b == 0x74
}

/// The byte such an escape decodes to.
pub open spec fn escape_byte(b: u8) -> u8 {
    if b == 0x62 {
        0x08
    } else if b == 0x66 {
        0x0c
    } else if b == 0x6e {
        0x0a
    } else if b == 0x72 {
        0x0d
    } else if b == 0x74 {
        0x09
    } else {
        b
    }
}

/// A UTF-8 continuation byte.
pub open spec fn is_cont(b: u8) -> bool {
    0x80 <= b <= 0xbf
}

/// Scans the body of a string literal from `i` (just after the opening
/// quote): `Some((decoded, end))` with `end` just after the closing
/// quote, or `None` when the input ends, or UTF-8 breaks off, before the
/// closing quote.
pub open spec fn str_scan(s: Seq<u8>, i: int) -> Option<(Seq<u8>, int)>
    decreases s.len() - i,
{
    if !(0 <= i < s.len()) {
        None
    } else {
        let b = s[i];
        if b == 0x22 {
            Some((Seq::empty(), i + 1))
        } else if b == 0x5c && i + 1 < s.len() && is_simple_escape(s[i + 1]) {
            match str_scan(s, i + 2) {
                Some((d, e)) => Some((seq![escape_byte(s[i + 1])] + d, e)),
                None => None,
            }
        } else if b == 0x5c && i + 1 < s.len() && s[i + 1] == 0x75 {
            let (v, j) = esc_u(s, i + 2);
            if j <= i + 1 || j > s.len() {
                None
            } else {
                match str_scan(s, j) {
                    Some((d, e)) => Some((utf8_enc(v) + d, e)),
                    None => None,
                }
            }
        } else if b < 0x80 {
            match str_scan(s, i + 1) {
                Some((d, e)) => Some((seq![b] + d, e)),
                None => None,
            }
        } else if 0xc0 <= b <= 0xdf && i + 2 <= s.len() && is_cont(s[i + 1]) {
            match str_scan(s, i + 2) {
                Some((d, e)) => Some((s.subrange(i, i + 2) + d, e)),
                None => None,
            }
        } else if 0xe0 <= b <= 0xef && i + 3 <= s.len() && is_cont(s[i + 1]) && is_cont(s[i + 2]) {
            match str_scan(s, i + 3) {
                Some((d, e)) => Some((s.subrange(i, i + 3) + d, e)),
                None => None,
            }
        } else if 0xf0 <= b <= 0xf7 && i + 4 <= s.len() && is_cont(s[i + 1]) && is_cont(s[i + 2])
            && is_cont(s[i + 3]) {
            match str_scan(s, i + 4) {
                Some((d, e)) => Some((s.subrange(i, i + 4) + d, e)),
                None => None,
            }
        } else {
            None
        }
    }
}

/// Scans a number literal starting at `i` (at the sign or first digit):
/// `Some((number, end))`, or `None` when a required digit group is
/// missing.  The mantissa is the integer and fraction digits read as one
/// decimal integer, capped at `u64::MAX`; the exponent combines the
/// (capped) explicit exponent with the (capped) count of fraction
/// digits.
pub open spec fn num_scan(s: Seq<u8>, i: int) -> Option<(JsonNumber, int)> {
    let neg = 0 <= i < s.len() && s[i] == 0x2d;
    let i1 = if neg {
        i + 1
    } else {
        i
    };
    if !(0 <= i1 < s.len() && is_digit(s[i1])) {
        None
    } else {
        let int_end = if s[i1] == 0x30 {
            i1 + 1
        } else {
            digits_end(s, i1)
        };
        let has_frac = int_end < s.len() && s[int_end] == 0x2e;
        let frac_start = int_end + 1;
        let frac_end = digits_end(s, frac_start);
        if has_frac && frac_end == frac_start {
            None
        } else {
            let mant_end = if has_frac {
                frac_end
            } else {
                int_end
            };
            let mant_digits = if has_frac {
                s.subrange(i1, int_end) + s.subrange(frac_start, frac_end)
            } else {
                s.subrange(i1, int_end)
            };
            let frac_count = if has_frac {
                frac_end - frac_start
            } else {
                0
            };
            let has_exp = mant_end < s.len() && (s[mant_end] == 0x65 || s[mant_end] == 0x45);
            if !has_exp {
                Some(
                    (
                        JsonNumber {
                            negative: neg,
                            mantissa: cap(digit_seq_val(mant_digits), u64::MAX as int) as u64,
                            exponent: (-cap(frac_count, MAX_EXPONENT_MAGNITUDE as int)) as i64,
                        },
                        mant_end,
                    ),
                )
            } else {
                let sign_pos = mant_end + 1;
                let exp_neg = sign_pos < s.len() && s[sign_pos] == 0x2d;
                let exp_explicit_sign = sign_pos < s.len() && (s[sign_pos] == 0x2d || s[sign_pos]
                    == 0x2b);
                let exp_start = if exp_explicit_sign {
                    sign_pos + 1
                } else {
                    sign_pos
                };
                let exp_end = digits_end(s, exp_start);
                if exp_end == exp_start {
                    None
                } else {
                    let e = cap(
                        digit_seq_val(s.subrange(exp_start, exp_end)),
                        MAX_EXPONENT_MAGNITUDE as int,
                    );
                    let signed_e = if exp_neg {
                        -e
                    } else {
                        e
                    };
                    Some(
                        (
                            JsonNumber {
                                negative: neg,
                                mantissa: cap(digit_seq_val(mant_digits), u64::MAX as int) as u64,
                                exponent: (signed_e - cap(
                                    frac_count,
                                    MAX_EXPONENT_MAGNITUDE as int,
                                )) as i64,
                            },
                            exp_end,
                        ),
                    )
                }
            }
        }
    }
}

/// Whether the keyword `true` stands at `i`.
pub open spec fn kw_true_at(s: Seq<u8>, i: int) -> bool {
    i + 4 <= s.len() && s[i] == 0x74 && s[i + 1] == 0x72 && s[i + 2] == 0x75 && s[i + 3] == 0x65
}

/// Whether the keyword `false` stands at `i`.
pub open spec fn kw_false_at(s: Seq<u8>, i: int) -> bool {
    i + 5 <= s.len() && s[i] == 0x66 && s[i + 1] == 0x61 && s[i + 2] == 0x6c && s[i + 3] == 0x73
        && s[i + 4] == 0x65
}

/// Whether the keyword `null` stands at `i`.
pub open spec fn kw_null_at(s: Seq<u8>, i: int) -> bool {
    i + 4 <= s.len() && s[i] == 0x6e && s[i + 1] == 0x75 && s[i + 2] == 0x6c && s[i + 3] == 0x6c
}

/// The token that starts at cursor position `pos`: whitespace is
/// skipped, then the token is classified by its first byte.  Lexical
/// errors span from the token's start to the end of the input; after the
/// end of the input the token is `End` with an empty span.
pub open spec fn spec_token(s: Seq<u8>, pos: int) -> SpecToken {
    let i = ws_end(s, pos);
    if !(0 <= i < s.len()) {
        SpecToken { start: s.len() as int, end: s.len() as int, kind: SpecTokenKind::End }
    } else {
        let b = s[i];
        if b == 0x7b {
            SpecToken { start: i, end: i + 1, kind: SpecTokenKind::LeftBrace }
        } else if b == 0x7d {
            SpecToken { start: i, end: i + 1, kind: SpecTokenKind::RightBrace }
        } else if b == 0x5b {
            SpecToken { start: i, end: i + 1, kind: SpecTokenKind::LeftBracket }
        } else if b == 0x5d {
            SpecToken { start: i, end: i + 1, kind: SpecTokenKind::RightBracket }
        } else if b == 0x3a {
            SpecToken { start: i, end: i + 1, kind: SpecTokenKind::Colon }
        } else if b == 0x2c {
            SpecToken { start: i, end: i + 1, kind: SpecTokenKind::Comma }
        } else if b == 0x22 {
            match str_scan(s, i + 1) {
                Some((d, e)) => SpecToken { start: i, end: e, kind: SpecTokenKind::String(d) },
                None => SpecToken { start: i, end: s.len() as int, kind: SpecTokenKind::Error },
            }
        } else if b == 0x2d || is_digit(b) {
            match num_scan(s, i) {
                Some((n, e)) => SpecToken { start: i, end: e, kind: SpecTokenKind::Number(n) },
                None => SpecToken { start: i, end: s.len() as int, kind: SpecTokenKind::Error },
            }
        } else if b == 0x74 && kw_true_at(s, i) {
            SpecToken { start: i, end: i + 4, kind: SpecTokenKind::Bool(true) }
        } else if b == 0x66 && kw_false_at(s, i) {
            SpecToken { start: i, end: i + 5, kind: SpecTokenKind::Bool(false) }
        } else if b == 0x6e && kw_null_at(s, i) {
            SpecToken { start: i, end: i + 4, kind: SpecTokenKind::Null }
        } else {
            SpecToken { start: i, end: s.len() as int, kind: SpecTokenKind::Error }
        }
    }
}

/// Classifies one byte as a hex digit and gives its value.
fn hex_digit(b: u8) -> (r: Option<u8>)
    ensures
        r is Some <==> is_hex_digit(b),
        r is Some ==> r.unwrap() == hex_digit_val(b),
{
    if 0x30 <= b && b <= 0x39 {
        Some(b - 0x30)
    } else if 0x41 <= b && b <= 0x46 {
        Some(b - 0x41 + 10)
    } else if 0x61 <= b && b <= 0x66 {
        Some(b - 0x61 + 10)
    } else {
        None
    }
}

/// Reads the four-hex-digit body of a Unicode escape at `i`.  On
/// success the UTF-16 code unit and the position after the digits; on
/// failure `None` and the position of the first byte that broke the run.
fn read_unit(source: &[u8], i: usize) -> (r: (Option<u16>, usize))
    requires
        i <= source@.len(),
    ensures
        i <= r.1 <= source@.len(),
        unit_ok(source@, i as int) ==> r.0 is Some && r.0.unwrap() as int == unit_val(
            source@,
            i as int,
        ) && r.1 == i + 4,
        !unit_ok(source@, i as int) ==> r.0 is None && r.1 as int == hex_run(
            source@,
            i as int,
            4,
        ),
{
    proof {
        reveal_with_fuel(hex_run, 6);
    }
    let d0 = if i < source.len() {
        hex_digit(source[i])
    } else {
        None
    };
    match d0 {
        None => (None, i),
        Some(v0) => {
            let d1 = if i + 1 < source.len() {
                hex_digit(source[i + 1])
            } else {
                None
            };
            match d1 {
                None => (None, i + 1),
                Some(v1) => {
                    let d2 = if i + 2 < source.len() {
                        hex_digit(source[i + 2])
                    } else {
                        None
                    };
                    match d2 {
                        None => (None, i + 2),
                        Some(v2) => {
                            let d3 = if i + 3 < source.len() {
                                hex_digit(source[i + 3])
                            } else {
                                None
                            };
                            match d3 {
                                None => (None, i + 3),
                                Some(v3) => {
                                    let unit: u16 = ((v0 as u16 * 16 + v1 as u16) * 16 + v2 as u16)
                                        * 16 + v3 as u16;
                                    (Some(unit), i + 4)
                                },
                            }
                        },
                    }
                },
            }
        },
    }
}

/// Reads a Unicode escape body (the part after `\u`), combining a high
/// surrogate with a following low-surrogate escape, and substituting
/// U+FFFD for every failure.  Returns the scalar value and the position
/// after everything consumed.
fn read_unicode_escape(source: &[u8], i: usize) -> (r: (u32, usize))
    requires
        i <= source@.len(),
    ensures
        r.0 as int == esc_u(source@, i as int).0,
        r.1 as int == esc_u(source@, i as int).1,
        i <= r.1 <= source@.len(),
        r.0 <= 0x10ffff,
{
    let (u1, p1) = read_unit(source, i);
    match u1 {
        None => (0xfffd, p1),
        Some(v1) => {
            if 0xd800 <= v1 && v1 <= 0xdbff {
                if p1 < source.len() && source[p1] == 0x5c && p1 + 1 < source.len() && source[p1
                    + 1] == 0x75 {
                    let (u2, p2) = read_unit(source, p1 + 2);
                    match u2 {
                        Some(v2) if 0xdc00 <= v2 && v2 <= 0xdfff => {
                            let scalar: u32 = 0x10000 + (v1 - 0xd800) as u32 * 0x400 + (v2
                                - 0xdc00) as u32;
                            (scalar, p2)
                        },
                        _ => (0xfffd, p2),
                    }
                } else {
                    (0xfffd, p1)
                }
            } else if 0xdc00 <= v1 && v1 <= 0xdfff {
                (0xfffd, p1)
            } else {
                (v1 as u32, p1)
            }
        },
    }
}

/// Appends the UTF-8 encoding of a scalar value to `buf`.
fn push_utf8(buf: &mut Vec<u8>, v: u32)
    requires
        v <= 0x10ffff,
    ensures
        final(buf)@ == old(buf)@ + utf8_enc(v as int),
{
    if v < 0x80 {
        buf.push(v as u8);
        assert(buf@ =~= old(buf)@ + utf8_enc(v as int));
    } else if v < 0x800 {
        buf.push((0xc0 + v / 0x40) as u8);
        buf.push((0x80 + v % 0x40) as u8);
        assert(buf@ =~= old(buf)@ + utf8_enc(v as int));
    } else if v < 0x10000 {
        buf.push((0xe0 + v / 0x1000) as u8);
        buf.push((0x80 + (v / 0x40) % 0x40) as u8);
        buf.push((0x80 + v % 0x40) as u8);
        assert(buf@ =~= old(buf)@ + utf8_enc(v as int));
    } else {
        buf.push((0xf0 + v / 0x40000) as u8);
        buf.push((0x80 + (v / 0x1000) % 0x40) as u8);
        buf.push((0x80 + (v / 0x40) % 0x40) as u8);
        buf.push((0x80 + v % 0x40) as u8);
        assert(buf@ =~= old(buf)@ + utf8_enc(v as int));
    }
}

/// `digits_end` stays between its argument and the end of the input.
pub proof fn lemma_digits_end_bounds(s: Seq<u8>, i: int)
    requires
        0 <= i <= s.len(),
    ensures
        i <= digits_end(s, i) <= s.len(),
    decreases s.len() - i,
{
    if i < s.len() && is_digit(s[i]) {
        lemma_digits_end_bounds(s, i + 1);
    }
}

/// `ws_end` stays between its argument and the end of the input.
pub proof fn lemma_ws_end_bounds(s: Seq<u8>, i: int)
    requires
        0 <= i <= s.len(),
    ensures
        i <= ws_end(s, i) <= s.len(),
    decreases s.len() - i,
{
    if i < s.len() && is_ws(s[i]) {
        lemma_ws_end_bounds(s, i + 1);
    }
}

/// A successful string scan ends after its starting position and within
/// the input.
pub proof fn lemma_str_scan_bounds(s: Seq<u8>, i: int)
    requires
        0 <= i,
    ensures
        str_scan(s, i) is Some ==> i < str_scan(s, i).unwrap().1 <= s.len(),
    decreases s.len() - i,
{
    if 0 <= i < s.len() {
        let b = s[i];
        if b == 0x22 {
        } else if b == 0x5c && i + 1 < s.len() && is_simple_escape(s[i + 1]) {
            lemma_str_scan_bounds(s, i + 2);
        } else if b == 0x5c && i + 1 < s.len() && s[i + 1] == 0x75 {
            let j = esc_u(s, i + 2).1;
            if i + 1 < j <= s.len() {
                lemma_str_scan_bounds(s, j);
            }
        } else if b < 0x80 {
            lemma_str_scan_bounds(s, i + 1);
        } else if 0xc0 <= b <= 0xdf && i + 2 <= s.len() && is_cont(s[i + 1]) {
            lemma_str_scan_bounds(s, i + 2);
        } else if 0xe0 <= b <= 0xef && i + 3 <= s.len() && is_cont(s[i + 1]) && is_cont(s[i + 2]) {
            lemma_str_scan_bounds(s, i + 3);
        } else if 0xf0 <= b <= 0xf7 && i + 4 <= s.len() && is_cont(s[i + 1]) && is_cont(s[i + 2])
            && is_cont(s[i + 3]) {
            lemma_str_scan_bounds(s, i + 4);
        }
    }
}

/// A successful number scan ends after its starting position and within
/// the input.
pub proof fn lemma_num_scan_bounds(s: Seq<u8>, i: int)
    requires
        0 <= i <= s.len(),
    ensures
        num_scan(s, i) is Some ==> i < num_scan(s, i).unwrap().1 <= s.len(),
{
    let neg = i < s.len() && s[i] == 0x2d;
    let i1 = if neg {
        i + 1
    } else {
        i
    };
    if i1 < s.len() && is_digit(s[i1]) {
        lemma_digits_end_bounds(s, i1);
        lemma_digits_end_bounds(s, i1 + 1);
        let int_end = if s[i1] == 0x30 {
            i1 + 1
        } else {
            digits_end(s, i1)
        };
        assert(i1 < int_end <= s.len());
        let has_frac = int_end < s.len() && s[int_end] == 0x2e;
        if has_frac {
            lemma_digits_end_bounds(s, int_end + 1);
        }
        let frac_end = digits_end(s, int_end + 1);
        let mant_end = if has_frac {
            frac_end
        } else {
            int_end
        };
        let has_exp = mant_end < s.len() && (s[mant_end] == 0x65 || s[mant_end] == 0x45);
        if has_exp {
            let sign_pos = mant_end + 1;
            let exp_explicit_sign = sign_pos < s.len() && (s[sign_pos] == 0x2d || s[sign_pos]
                == 0x2b);
            let exp_start = if exp_explicit_sign {
                sign_pos + 1
            } else {
                sign_pos
            };
            lemma_digits_end_bounds(s, exp_start);
        }
    }
}

/// The token at `pos` lies within the input and, unless it is the `End`
/// token, ends strictly after `pos`.
pub proof fn lemma_token_bounds(s: Seq<u8>, pos: int)
    requires
        0 <= pos <= s.len(),
    ensures
        0 <= spec_token(s, pos).end <= s.len(),
        !(spec_token(s, pos).kind is End) ==> pos < spec_token(s, pos).end,
        spec_token(s, pos).kind is End ==> spec_token(s, pos).end == s.len(),
        pos <= spec_token(s, pos).start <= spec_token(s, pos).end,
{
    lemma_ws_end_bounds(s, pos);
    let i = ws_end(s, pos);
    if i < s.len() {
        let b = s[i];
        if b == 0x22 {
            lemma_str_scan_bounds(s, i + 1);
        } else if b == 0x2d || is_digit(b) {
            lemma_num_scan_bounds(s, i);
        }
    }
}

/// Classifies one byte as a one-byte escape and gives the byte it
/// decodes to.
fn simple_escape(b: u8) -> (r: Option<u8>)
    ensures
        r is Some <==> is_simple_escape(b),
        r is Some ==> r.unwrap() == escape_byte(b),
{
    if b == 0x22 || b == 0x5c || b == 0x2f {
        Some(b)
    } else if b == 0x62 {
        Some(0x08)
    } else if b == 0x66 {
        Some(0x0c)
    } else if b == 0x6e {
        Some(0x0a)
    } else if b == 0x72 {
        Some(0x0d)
    } else if b == 0x74 {
        Some(0x09)
    } else {
        None
    }
}

/// Reads the body of a string literal from `start` (just after the
/// opening quote) to the closing quote, decoding escapes and copying
/// multi-byte UTF-8 through.  On success the decoded bytes and the
/// position after the closing quote; `None` when the literal never
/// closes or the bytes are not UTF-8.
#[verifier::rlimit(100)]
#[verifier::spinoff_prover]
fn read_string(source: &[u8], start: usize) -> (r: (Option<Vec<u8>>, usize))
    requires
        start <= source@.len(),
    ensures
        match str_scan(source@, start as int) {
            Some((d, e)) => r.0 is Some && r.0.unwrap()@ == d && r.1 as int == e && r.1
                <= source@.len(),
            None => r.0 is None,
        },
{
    let ghost s = source@;
    let mut buf: Vec<u8> = Vec::new();
    let mut i = start;
    loop
        invariant
            start <= i <= s.len(),
            source@ == s,
            match str_scan(s, i as int) {
                Some((d, e)) => str_scan(s, start as int) == Some::<(Seq<u8>, int)>(
                    (buf@ + d, e),
                ),
                None => str_scan(s, start as int) is None,
            },
        decreases s.len() - i,
    {
        if i >= source.len() {
            return (None, i);
        }
        let b = source[i];
        if b == 0x22 {
            proof {
                assert(str_scan(s, i as int) == Some::<(Seq<u8>, int)>((Seq::empty(), i + 1)));
                assert(buf@ + Seq::<u8>::empty() =~= buf@);
                lemma_str_scan_bounds(s, start as int);
            }
            return (Some(buf), i + 1);
        }
        let ghost prev = buf@;
        let ghost iprev = i as int;
        let ghost mut item: Seq<u8> = Seq::empty();
        if b == 0x5c && i + 1 < source.len() && source[i + 1] != 0x75 && matches!(
            simple_escape(source[i + 1]),
            Some(_),
        ) {
            let e = simple_escape(source[i + 1]).unwrap();
            buf.push(e);
            i = i + 2;
            proof {
                item = seq![escape_byte(s[iprev + 1])];
                assert(buf@ =~= prev + item);
            }
        } else if b == 0x5c && i + 1 < source.len() && source[i + 1] == 0x75 {
            let (v, j) = read_unicode_escape(source, i + 2);
            push_utf8(&mut buf, v);
            i = j;
            proof {
                item = utf8_enc(esc_u(s, iprev + 2).0);
                assert(buf@ =~= prev + item);
            }
        } else if b < 0x80 {
            buf.push(b);
            i = i + 1;
            proof {
                item = seq![b];
                assert(buf@ =~= prev + item);
            }
        } else if 0xc0 <= b && b <= 0xdf && i + 1 < source.len() && 0x80 <= source[i + 1]
            && source[i + 1] <= 0xbf {
            buf.push(b);
            buf.push(source[i + 1]);
            i = i + 2;
            proof {
                item = s.subrange(iprev, iprev + 2);
                assert(buf@ =~= prev + item);
            }
        } else if 0xe0 <= b && b <= 0xef && i + 1 < source.len() && i + 2 < source.len()
            && 0x80 <= source[i + 1]
            && source[i + 1] <= 0xbf && 0x80 <= source[i + 2] && source[i + 2] <= 0xbf {
            buf.push(b);
            buf.push(source[i + 1]);
            buf.push(source[i + 2]);
            i = i + 3;
            proof {
                item = s.subrange(iprev, iprev + 3);
                assert(buf@ =~= prev + item);
            }
        } else if 0xf0 <= b && b <= 0xf7 && i + 1 < source.len() && i + 2 < source.len()
            && i + 3 < source.len() && 0x80 <= source[i + 1]
            && source[i + 1] <= 0xbf && 0x80 <= source[i + 2] && source[i + 2] <= 0xbf && 0x80
            <= source[i + 3] && source[i + 3] <= 0xbf {
            buf.push(b);
            buf.push(source[i + 1]);
            buf.push(source[i + 2]);
            buf.push(source[i + 3]);
            i = i + 4;
            proof {
                item = s.subrange(iprev, iprev + 4);
                assert(buf@ =~= prev + item);
            }
        } else {
            return (None, i);
        }
        proof {
            match str_scan(s, i as int) {
                Some((d, e)) => {
                    assert((prev + item) + d =~= prev + (item + d));
                },
                None => {},
            }
        }
    }
}

/// One step of the saturating mantissa fold: `10 * m + d`, capped at
/// `u64::MAX`.
fn sat_mantissa_step(m: u64, d: u8) -> (r: u64)
    requires
        d < 10,
    ensures
        r as int == cap(10 * (m as int) + d, u64::MAX as int),
{
    let t: u128 = (m as u128) * 10 + (d as u128);
    if t > u64::MAX as u128 {
        u64::MAX
    } else {
        t as u64
    }
}

/// One step of the saturating exponent fold: `10 * e + d`, capped at
/// `MAX_EXPONENT_MAGNITUDE`.
fn sat_exponent_step(e: u64, d: u8) -> (r: u64)
    requires
        d < 10,
        e <= MAX_EXPONENT_MAGNITUDE,
    ensures
        r as int == cap(10 * (e as int) + d, MAX_EXPONENT_MAGNITUDE as int),
        r <= MAX_EXPONENT_MAGNITUDE,
{
    let t: u64 = e * 10 + d as u64;
    if t > MAX_EXPONENT_MAGNITUDE {
        MAX_EXPONENT_MAGNITUDE
    } else {
        t
    }
}

/// The saturating fold step agrees with folding the exact value: capping
/// the accumulator first does not change the capped result.
proof fn lemma_cap_step(v: int, d: int, m: int)
    requires
        0 <= d < 10,
        0 < m,
    ensures
        cap(10 * cap(v, m) + d, m) == cap(10 * v + d, m),
{
    if v > m {
        assert(10 * v >= v) by (nonlinear_arith)
            requires
                0 < v,
        ;
        assert(10 * m >= m) by (nonlinear_arith)
            requires
                0 < m,
        ;
    }
}

/// Reads a number literal beginning at `start` (at the sign or the
/// first digit), decoding sign, mantissa digits and decimal exponent.
/// On success the decoded number and the position after the literal;
/// `None` when a required digit group is missing.
fn read_number(source: &[u8], start: usize) -> (r: (Option<JsonNumber>, usize))
    requires
        start <= source@.len(),
    ensures
        match num_scan(source@, start as int) {
            Some((n, e)) => r.0 is Some && r.0.unwrap() == n && r.1 as int == e && r.1
                <= source@.len(),
            None => r.0 is None,
        },
{
    let ghost s = source@;
    let mut i = start;
    let negative = if i < source.len() && source[i] == 0x2d {
        i = i + 1;
        true
    } else {
        false
    };
    let ghost i1 = i as int;
    if i >= source.len() || !(0x30 <= source[i] && source[i] <= 0x39) {
        return (None, i);
    }
    let mut mant: u64 = 0;
    if source[i] == 0x30 {
        i = i + 1;
        proof {
            let d1 = s.subrange(i1, i1 + 1);
            assert(d1.drop_last() =~= Seq::<u8>::empty());
            assert(digit_seq_val(Seq::<u8>::empty()) == 0);
            assert(d1.last() == s[i1]);
            assert(digit_seq_val(d1) == 10 * digit_seq_val(d1.drop_last()) + (d1.last() - 0x30));
        }
    } else {
        while i < source.len() && 0x30 <= source[i] && source[i] <= 0x39
            invariant
                source@ == s,
                0 <= i1 <= i <= s.len(),
                i1 < s.len() && is_digit(s[i1]) && s[i1] != 0x30,
                digits_end(s, i1) == digits_end(s, i as int),
                mant as int == cap(digit_seq_val(s.subrange(i1, i as int)), u64::MAX as int),
            decreases s.len() - i,
        {
            let d = source[i] - 0x30;
            proof {
                let pre = s.subrange(i1, i as int);
                assert(s.subrange(i1, i + 1).drop_last() =~= pre);
                lemma_cap_step(digit_seq_val(pre), d as int, u64::MAX as int);
            }
            mant = sat_mantissa_step(mant, d);
            i = i + 1;
        }
        proof {
            assert(digits_end(s, i as int) == i as int);
        }
    }
    let ghost int_end = i as int;
    let mut frac_count: u64 = 0;
    let mut has_frac = false;
    let ghost frac_start: int = i + 1;
    if i < source.len() && source[i] == 0x2e {
        has_frac = true;
        i = i + 1;
        if i >= source.len() || !(0x30 <= source[i] && source[i] <= 0x39) {
            return (None, i);
        }
        proof {
            assert(s.subrange(i1, int_end) + s.subrange(frac_start, frac_start) =~= s.subrange(
                i1,
                int_end,
            ));
        }
        while i < source.len() && 0x30 <= source[i] && source[i] <= 0x39
            invariant
                source@ == s,
                0 <= i1 <= int_end < frac_start <= i <= s.len(),
                digits_end(s, frac_start) == digits_end(s, i as int),
                mant as int == cap(
                    digit_seq_val(s.subrange(i1, int_end) + s.subrange(frac_start, i as int)),
                    u64::MAX as int,
                ),
                frac_count as int == cap(i - frac_start, MAX_EXPONENT_MAGNITUDE as int),
            decreases s.len() - i,
        {
            let d = source[i] - 0x30;
            proof {
                let pre = s.subrange(i1, int_end) + s.subrange(frac_start, i as int);
                assert((s.subrange(i1, int_end) + s.subrange(frac_start, i + 1)).drop_last()
                    =~= pre);
                assert((s.subrange(i1, int_end) + s.subrange(frac_start, i + 1)).last() == s[
                i as int]);
                lemma_cap_step(digit_seq_val(pre), d as int, u64::MAX as int);
            }
            mant = sat_mantissa_step(mant, d);
            frac_count = if frac_count < MAX_EXPONENT_MAGNITUDE {
                frac_count + 1
            } else {
                frac_count
            };
            i = i + 1;
        }
        proof {
            assert(digits_end(s, i as int) == i as int);
        }
    }
    let ghost mant_end = i as int;
    let mut exp_mag: u64 = 0;
    let mut exp_neg = false;
    if i < source.len() && (source[i] == 0x65 || source[i] == 0x45) {
        i = i + 1;
        if i < source.len() && source[i] == 0x2b {
            i = i + 1;
        } else if i < source.len() && source[i] == 0x2d {
            exp_neg = true;
            i = i + 1;
        }
        let ghost exp_start = i as int;
        if i >= source.len() || !(0x30 <= source[i] && source[i] <= 0x39) {
            return (None, i);
        }
        while i < source.len() && 0x30 <= source[i] && source[i] <= 0x39
            invariant
                source@ == s,
                0 <= exp_start <= i <= s.len(),
                digits_end(s, exp_start) == digits_end(s, i as int),
                exp_mag as int == cap(
                    digit_seq_val(s.subrange(exp_start, i as int)),
                    MAX_EXPONENT_MAGNITUDE as int,
                ),
                exp_mag <= MAX_EXPONENT_MAGNITUDE,
            decreases s.len() - i,
        {
            let d = source[i] - 0x30;
            proof {
                let pre = s.subrange(exp_start, i as int);
                assert(s.subrange(exp_start, i + 1).drop_last() =~= pre);
                lemma_cap_step(digit_seq_val(pre), d as int, MAX_EXPONENT_MAGNITUDE as int);
            }
            exp_mag = sat_exponent_step(exp_mag, d);
            i = i + 1;
        }
        proof {
            assert(digits_end(s, i as int) == i as int);
        }
    }
    let signed_e: i64 = if exp_neg {
        -(exp_mag as i64)
    } else {
        exp_mag as i64
    };
    let exponent: i64 = signed_e - (frac_count as i64);
    (Some(JsonNumber { negative, mantissa: mant, exponent }), i)
}

/// The JSON lexical analyzer: a borrowed byte slice and a cursor.
pub struct Lex<'a> {
    source: &'a [u8],
    pos: usize,
}

impl<'a> Lex<'a> {
    /// The input bytes.
    pub closed spec fn src(&self) -> Seq<u8> {
        self.source@
    }

    /// The cursor position.
    pub closed spec fn cursor(&self) -> int {
        self.pos as int
    }

    /// The cursor never passes the end of the input.
    pub open spec fn wf(&self) -> bool {
        0 <= self.cursor() <= self.src().len()
    }

    /// Creates a lexer over `source` with the cursor at the start.
    pub fn new(source: &'a [u8]) -> (r: Lex<'a>)
        ensures
            r.src() == source@,
            r.cursor() == 0,
            r.wf(),
    {
        Lex { source, pos: 0 }
    }

    /// Returns the token at the cursor and advances the cursor to its
    /// end.  After the end of the input every call returns the `End`
    /// token; a malformed token comes back as an `Error` token spanning
    /// to the end of the input.
    pub fn next(&mut self) -> (t: Token)
        requires
            old(self).wf(),
        ensures
            final (self).wf(),
            final (self).src() == old(self).src(),
            t@ == spec_token(old(self).src(), old(self).cursor()),
            final (self).cursor() == t@.end,
            t@.start <= t@.end,
    {
        let source = self.source;
        let ghost s = source@;
        let ghost pos0 = self.pos as int;
        let mut i = self.pos;
        while i < source.len() && (source[i] == 0x20 || source[i] == 0x09 || source[i] == 0x0d
            || source[i] == 0x0a)
            invariant
                source@ == s,
                0 <= i <= s.len(),
                ws_end(s, pos0) == ws_end(s, i as int),
            decreases s.len() - i,
        {
            i = i + 1;
        }
        proof {
            assert(ws_end(s, i as int) == i as int);
            lemma_token_bounds(s, pos0);
        }
        if i >= source.len() {
            self.pos = i;
            return Token { start: i, end: i, kind: TokenKind::End };
        }
        let b = source[i];
        if b == 0x7b {
            self.pos = i + 1;
            Token { start: i, end: i + 1, kind: TokenKind::LeftBrace }
        } else if b == 0x7d {
            self.pos = i + 1;
            Token { start: i, end: i + 1, kind: TokenKind::RightBrace }
        } else if b == 0x5b {
            self.pos = i + 1;
            Token { start: i, end: i + 1, kind: TokenKind::LeftBracket }
        } else if b == 0x5d {
            self.pos = i + 1;
            Token { start: i, end: i + 1, kind: TokenKind::RightBracket }
        } else if b == 0x3a {
            self.pos = i + 1;
            Token { start: i, end: i + 1, kind: TokenKind::Colon }
        } else if b == 0x2c {
            self.pos = i + 1;
            Token { start: i, end: i + 1, kind: TokenKind::Comma }
        } else if b == 0x22 {
            let (decoded, e) = read_string(source, i + 1);
            match decoded {
                Some(v) => {
                    self.pos = e;
                    Token { start: i, end: e, kind: TokenKind::String(v) }
                },
                None => {
                    self.pos = source.len();
                    Token { start: i, end: source.len(), kind: TokenKind::Error }
                },
            }
        } else if b == 0x2d || (0x30 <= b && b <= 0x39) {
            let (decoded, e) = read_number(source, i);
            match decoded {
                Some(n) => {
                    self.pos = e;
                    Token { start: i, end: e, kind: TokenKind::Number(n) }
                },
                None => {
                    self.pos = source.len();
                    Token { start: i, end: source.len(), kind: TokenKind::Error }
                },
            }
        } else if b == 0x74 {
            if source.len() - i >= 4 && source[i + 1] == 0x72 && source[i + 2] == 0x75 && source[i
                + 3] == 0x65 {
                self.pos = i + 4;
                Token { start: i, end: i + 4, kind: TokenKind::Bool(true) }
            } else {
                self.pos = source.len();
                Token { start: i, end: source.len(), kind: TokenKind::Error }
            }
        } else if b == 0x66 {
            if source.len() - i >= 5 && source[i + 1] == 0x61 && source[i + 2] == 0x6c && source[i
                + 3] == 0x73 && source[i + 4] == 0x65 {
                self.pos = i + 5;
                Token { start: i, end: i + 5, kind: TokenKind::Bool(false) }
            } else {
                self.pos = source.len();
                Token { start: i, end: source.len(), kind: TokenKind::Error }
            }
        } else if b == 0x6e {
            if source.len() - i >= 4 && source[i + 1] == 0x75 && source[i + 2] == 0x6c && source[i
                + 3] == 0x6c {
                self.pos = i + 4;
                Token { start: i, end: i + 4, kind: TokenKind::Null }
            } else {
                self.pos = source.len();
                Token { start: i, end: source.len(), kind: TokenKind::Error }
            }
        } else {
            self.pos = source.len();
            Token { start: i, end: source.len(), kind: TokenKind::Error }
        }
    }
}

} // verus!
