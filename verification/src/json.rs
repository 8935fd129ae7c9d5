//! A verified JSON reader for the completion service's replies.
//!
//! The accepted texts are JSON objects: optional whitespace around and
//! inside `{ "key": value, ... }`. Member values may be strings (with the
//! standard escapes, including `\uXXXX` and surrogate pairs), numbers
//! (optional sign, no leading zeros, optional fraction and exponent),
//! `true`, `false`, `null`, or nested objects and arrays; nested values are
//! validated and skipped, since the canonical shapes never need their
//! contents. Strings are decoded, so keys and values compare by their
//! character content. A number whose value does not fit the decimal
//! representation reads as zero, like a missing amount; dispatch rejects
//! such values.

use vstd::prelude::*;
use crate::decimal::{
    digits_to_nat, is_digit_char, lemma_acc_overflow, lemma_pow10_38_fits, lemma_pow10_mono,
    lemma_pow10_positive, pow10, pow10_u128, Decimal,
};
use crate::extract::is_space;

verus! {

/// A member value of an intent object. Nested objects and arrays are
/// validated but not read: the canonical shapes carry only primitives.
#[derive(Clone, Debug, PartialEq, Eq)]
pub enum JsonValue {
    Str(String),
    Num(Decimal),
    Bool(bool),
    Null,
    Composite,
}

/// The mathematical shadow of [`JsonValue`].
pub enum SpecJson {
    SStr(Seq<char>),
    SNum(Decimal),
    SBool(bool),
    SNull,
    SComposite,
}

impl View for JsonValue {
    type V = SpecJson;

    open spec fn view(&self) -> SpecJson {
        match self {
            JsonValue::Str(s) => SpecJson::SStr(s@),
            JsonValue::Num(d) => SpecJson::SNum(*d),
            JsonValue::Bool(b) => SpecJson::SBool(*b),
            JsonValue::Null => SpecJson::SNull,
            JsonValue::Composite => SpecJson::SComposite,
        }
    }
}

/// The first position at or after `i` holding a non-whitespace character.
pub open spec fn skip_ws(s: Seq<char>, i: int) -> int
    decreases s.len() - i,
{
    if i < 0 || i >= s.len() {
        s.len() as int
    } else if is_space(s[i]) {
        skip_ws(s, i + 1)
    } else {
        i
    }
}

proof fn lemma_skip_ws_bounds(s: Seq<char>, i: int)
    requires
        0 <= i <= s.len(),
    ensures
        i <= skip_ws(s, i) <= s.len(),
    decreases s.len() - i,
{
    if i < s.len() && is_space(s[i]) {
        lemma_skip_ws_bounds(s, i + 1);
    }
}

/// The first position at or after `i` holding a non-digit.
pub open spec fn digits_end(s: Seq<char>, i: int) -> int
    decreases s.len() - i,
{
    if i < 0 || i >= s.len() {
        s.len() as int
    } else if is_digit_char(s[i]) {
        digits_end(s, i + 1)
    } else {
        i
    }
}

/// A character that may stand unescaped inside a string literal.
pub open spec fn is_plain_char(c: char) -> bool {
    c != '"' && c != '\\' && c as u32 >= 32
}

/// The value of a hexadecimal digit, or 16 for any other character.
pub open spec fn hex_val(c: char) -> nat {
    if 48 <= c as u32 <= 57 {
        (c as u32 - 48) as nat
    } else if 97 <= c as u32 <= 102 {
        (c as u32 - 87) as nat
    } else if 65 <= c as u32 <= 70 {
        (c as u32 - 55) as nat
    } else {
        16
    }
}

/// Four hexadecimal digits starting at `i`.
pub open spec fn hex4_ok(s: Seq<char>, i: int) -> bool {
    hex_val(s[i]) < 16 && hex_val(s[i + 1]) < 16 && hex_val(s[i + 2]) < 16 && hex_val(
        s[i + 3],
    ) < 16
}

/// The code unit written by four hexadecimal digits starting at `i`.
pub open spec fn hex4_val(s: Seq<char>, i: int) -> nat {
    4096 * hex_val(s[i]) + 256 * hex_val(s[i + 1]) + 16 * hex_val(s[i + 2]) + hex_val(s[i + 3])
}

pub open spec fn is_high_surrogate(v: nat) -> bool {
    0xD800 <= v <= 0xDBFF
}

pub open spec fn is_low_surrogate(v: nat) -> bool {
    0xDC00 <= v <= 0xDFFF
}

/// The single-character escapes.
pub open spec fn is_simple_escape(c: char) -> bool {
    c == '"' || c == '\\' || c == '/' || c == 'b' || c == 'f' || c == 'n' || c == 'r' || c == 't'
}

/// What a single-character escape stands for.
pub open spec fn esc_char(c: char) -> char {
    if c == 'b' {
        '\u{0008}'
    } else if c == 'f' {
        '\u{000C}'
    } else if c == 'n' {
        '\n'
    } else if c == 'r' {
        '\r'
    } else if c == 't' {
        '\t'
    } else {
        c
    }
}

/// The scalar written by a surrogate pair.
pub open spec fn pair_char(v: nat, w: nat) -> char {
    (((0x10000 + (v - 0xD800) * 0x400 + (w - 0xDC00)) as int) as u32) as char
}

/// The position of the closing quote of a string body starting at `i`, when
/// the body is made of plain characters and well-formed escapes (lone
/// surrogate halves are rejected).
pub open spec fn string_end(s: Seq<char>, i: int) -> Option<int>
    decreases s.len() - i,
{
    if i < 0 || i >= s.len() {
        None
    } else if s[i] == '"' {
        Some(i)
    } else if s[i] == '\\' {
        if i + 2 > s.len() {
            None
        } else {
            let c = s[i + 1];
            if is_simple_escape(c) {
                string_end(s, i + 2)
            } else if c == 'u' {
                if i + 6 <= s.len() && hex4_ok(s, i + 2) {
                    let v = hex4_val(s, i + 2);
                    if is_low_surrogate(v) {
                        None
                    } else if is_high_surrogate(v) {
                        if i + 12 <= s.len() && s[i + 6] == '\\' && s[i + 7] == 'u' && hex4_ok(
                            s,
                            i + 8,
                        ) && is_low_surrogate(hex4_val(s, i + 8)) {
                            string_end(s, i + 12)
                        } else {
                            None
                        }
                    } else {
                        string_end(s, i + 6)
                    }
                } else {
                    None
                }
            } else {
                None
            }
        }
    } else if is_plain_char(s[i]) {
        string_end(s, i + 1)
    } else {
        None
    }
}

proof fn lemma_string_end_bounds(s: Seq<char>, i: int)
    requires
        0 <= i,
    ensures
        match string_end(s, i) {
            Some(q) => i <= q < s.len() && s[q] == '"',
            None => true,
        },
    decreases s.len() - i,
{
    if 0 <= i < s.len() && s[i] != '"' {
        if s[i] == '\\' && i + 2 <= s.len() {
            let c = s[i + 1];
            if is_simple_escape(c) {
                lemma_string_end_bounds(s, i + 2);
            } else if c == 'u' && i + 6 <= s.len() && hex4_ok(s, i + 2) {
                if is_high_surrogate(hex4_val(s, i + 2)) {
                    if i + 12 <= s.len() {
                        lemma_string_end_bounds(s, i + 12);
                    }
                } else {
                    lemma_string_end_bounds(s, i + 6);
                }
            }
        } else {
            lemma_string_end_bounds(s, i + 1);
        }
    }
}

/// The characters a string body between `i` and its closing quote `q`
/// denotes, with escapes decoded.
pub open spec fn decode_str(s: Seq<char>, i: int, q: int) -> Seq<char>
    decreases q - i,
{
    if i < 0 || i >= q {
        Seq::empty()
    } else if s[i] == '\\' && i + 2 <= q {
        let c = s[i + 1];
        if c == 'u' {
            if i + 6 <= q {
                let v = hex4_val(s, i + 2);
                if is_high_surrogate(v) && i + 12 <= q && s[i + 6] == '\\' && s[i + 7] == 'u' {
                    seq![pair_char(v, hex4_val(s, i + 8))] + decode_str(s, i + 12, q)
                } else {
                    seq![((v as int) as u32) as char] + decode_str(s, i + 6, q)
                }
            } else {
                seq![s[i]] + decode_str(s, i + 1, q)
            }
        } else if is_simple_escape(c) {
            seq![esc_char(c)] + decode_str(s, i + 2, q)
        } else {
            seq![s[i]] + decode_str(s, i + 1, q)
        }
    } else {
        seq![s[i]] + decode_str(s, i + 1, q)
    }
}

/// Relies on `char::from_u32`: for a Unicode scalar value (not a surrogate,
/// at most 0x10FFFF) it returns `Some` of the character with exactly that
/// code point.
#[verifier::external_body]
fn char_of_scalar(v: u32) -> (c: char)
    requires
        v < 0xD800 || (0xE000 <= v <= 0x10FFFF),
    ensures
        c as u32 == v,
{
    char::from_u32(v).unwrap()
}

/// Relies on `String::push`: it appends exactly the given character.
#[verifier::external_body]
fn push_char(s: &mut String, c: char)
    ensures
        final(s)@ == old(s)@.push(c),
{
    s.push(c);
}

/// Whether position `i` of `s` holds a whitespace character.
fn is_space_at(s: &str, i: usize) -> (r: bool)
    requires
        i < s@.len(),
    ensures
        r == is_space(s@[i as int]),
{
    let c: char = s.get_char(i);
    c == ' ' || c == '\t' || c == '\n' || c == '\r'
}

/// Whether position `i` of `s` holds an ASCII digit.
fn is_digit_at(s: &str, i: usize) -> (r: bool)
    requires
        i < s@.len(),
    ensures
        r == is_digit_char(s@[i as int]),
{
    let c: char = s.get_char(i);
    let v: u32 = c as u32;
    48 <= v && v <= 57
}

/// Finds the first non-whitespace position at or after `i`.
fn skip_ws_at(s: &str, n: usize, i: usize) -> (r: usize)
    requires
        i <= n == s@.len(),
    ensures
        r == skip_ws(s@, i as int),
        i <= r <= n,
{
    let mut j: usize = i;
    while j < n && is_space_at(s, j)
        invariant
            i <= j <= n == s@.len(),
            skip_ws(s@, i as int) == skip_ws(s@, j as int),
        decreases n - j,
    {
        j = j + 1;
    }
    j
}

/// The value of the hexadecimal digit at `i`, or 16.
fn hex_val_at(s: &str, i: usize) -> (r: u32)
    requires
        i < s@.len(),
    ensures
        r as nat == hex_val(s@[i as int]),
{
    let v: u32 = s.get_char(i) as u32;
    if 48 <= v && v <= 57 {
        v - 48
    } else if 97 <= v && v <= 102 {
        v - 87
    } else if 65 <= v && v <= 70 {
        v - 55
    } else {
        16
    }
}

/// Reads four hexadecimal digits starting at `i`.
fn hex4_at(s: &str, n: usize, i: usize) -> (r: Option<u32>)
    requires
        i <= n == s@.len(),
        n - i >= 4,
    ensures
        match r {
            Some(v) => hex4_ok(s@, i as int) && v as nat == hex4_val(s@, i as int),
            None => !hex4_ok(s@, i as int),
        },
{
    let h0: u32 = hex_val_at(s, i);
    let h1: u32 = hex_val_at(s, i + 1);
    let h2: u32 = hex_val_at(s, i + 2);
    let h3: u32 = hex_val_at(s, i + 3);
    if h0 < 16 && h1 < 16 && h2 < 16 && h3 < 16 {
        Some(4096 * h0 + 256 * h1 + 16 * h2 + h3)
    } else {
        None
    }
}

/// Finds the closing quote of a string body starting at `i`.
fn string_end_at(s: &str, n: usize, i: usize) -> (r: Option<usize>)
    requires
        i <= n == s@.len(),
    ensures
        match r {
            Some(q) => string_end(s@, i as int) == Some(q as int) && i <= q < n,
            None => string_end(s@, i as int) is None,
        },
{
    let mut j: usize = i;
    loop
        invariant
            i <= j <= n == s@.len(),
            string_end(s@, i as int) == string_end(s@, j as int),
        decreases n - j,
    {
        if j >= n {
            return None;
        }
        let c: char = s.get_char(j);
        if c == '"' {
            return Some(j);
        }
        if c == '\\' {
            if n - j < 2 {
                return None;
            }
            let e: char = s.get_char(j + 1);
            if e == '"' || e == '\\' || e == '/' || e == 'b' || e == 'f' || e == 'n' || e == 'r'
                || e == 't' {
                j = j + 2;
            } else if e == 'u' {
                if n - j < 6 {
                    return None;
                }
                let v: u32 = match hex4_at(s, n, j + 2) {
                    Some(v) => v,
                    None => {
                        return None;
                    },
                };
                if 0xDC00 <= v && v <= 0xDFFF {
                    return None;
                }
                if 0xD800 <= v && v <= 0xDBFF {
                    if n - j < 12 {
                        return None;
                    }
                    if s.get_char(j + 6) != '\\' || s.get_char(j + 7) != 'u' {
                        return None;
                    }
                    let w: u32 = match hex4_at(s, n, j + 8) {
                        Some(w) => w,
                        None => {
                            return None;
                        },
                    };
                    if !(0xDC00 <= w && w <= 0xDFFF) {
                        return None;
                    }
                    j = j + 12;
                } else {
                    j = j + 6;
                }
            } else {
                return None;
            }
        } else if c as u32 >= 32 {
            j = j + 1;
        } else {
            return None;
        }
    }
}

/// Decodes the string body between `start` and its closing quote `q`.
#[verifier::rlimit(60)]
fn decode_string_range(s: &str, q: usize, start: usize) -> (out: String)
    requires
        start <= q <= s@.len(),
        string_end(s@, start as int) == Some(q as int),
    ensures
        out@ == decode_str(s@, start as int, q as int),
{
    let mut out: String = String::new();
    let mut j: usize = start;
    while j < q
        invariant
            start <= j <= q <= s@.len(),
            string_end(s@, j as int) == Some(q as int),
            decode_str(s@, start as int, q as int) == out@ + decode_str(s@, j as int, q as int),
        decreases q - j,
    {
        proof {
            lemma_string_end_bounds(s@, j as int);
        }
        let c: char = s.get_char(j);
        let ghost before = out@;
        if c == '\\' {
            proof {
                lemma_string_end_bounds(s@, j + 2);
                lemma_string_end_bounds(s@, j + 6);
                lemma_string_end_bounds(s@, j + 12);
            }
            let e: char = s.get_char(j + 1);
            if e == 'u' {
                let v: u32 = match hex4_at(s, s.unicode_len(), j + 2) {
                    Some(v) => v,
                    None => {
                        proof {
                            assert(false);
                        }
                        return out;
                    },
                };
                if 0xD800 <= v && v <= 0xDBFF {
                    let w: u32 = match hex4_at(s, s.unicode_len(), j + 8) {
                        Some(w) => w,
                        None => {
                            proof {
                                assert(false);
                            }
                            return out;
                        },
                    };
                    let cp: u32 = 0x10000 + (v - 0xD800) * 0x400 + (w - 0xDC00);
                    let dc: char = char_of_scalar(cp);
                    push_char(&mut out, dc);
                    proof {
                        assert(dc == pair_char(v as nat, w as nat));
                        assert(before.push(dc) =~= before + seq![dc]);
                    }
                    j = j + 12;
                } else {
                    let dc: char = char_of_scalar(v);
                    push_char(&mut out, dc);
                    proof {
                        assert(dc == ((v as int) as u32) as char);
                        assert(before.push(dc) =~= before + seq![dc]);
                    }
                    j = j + 6;
                }
            } else {
                let dc: char = if e == 'b' {
                    '\u{0008}'
                } else if e == 'f' {
                    '\u{000C}'
                } else if e == 'n' {
                    '\n'
                } else if e == 'r' {
                    '\r'
                } else if e == 't' {
                    '\t'
                } else {
                    e
                };
                push_char(&mut out, dc);
                proof {
                    assert(dc == esc_char(s@[j + 1]));
                    assert(before.push(dc) =~= before + seq![dc]);
                }
                j = j + 2;
            }
        } else {
            push_char(&mut out, c);
            proof {
                assert(before.push(c) =~= before + seq![c]);
            }
            j = j + 1;
        }
        proof {
            assert(out@ + decode_str(s@, j as int, q as int) =~= before + (out@.subrange(
                before.len() as int,
                out@.len() as int,
            ) + decode_str(s@, j as int, q as int)));
        }
    }
    proof {
        assert(out@ + decode_str(s@, j as int, q as int) =~= out@);
    }
    out
}

/// Reads the string starting with the quote at `i - 1`'s content position
/// `i`: returns the decoded body and the position just past the closing
/// quote.
fn read_string_at(s: &str, n: usize, i: usize) -> (r: Option<(String, usize)>)
    requires
        i <= n == s@.len(),
    ensures
        match r {
            Some(p) => string_end(s@, i as int) == Some(p.1 - 1 as int) && p.0@ == decode_str(
                s@,
                i as int,
                p.1 - 1 as int,
            ) && i < p.1 <= n,
            None => string_end(s@, i as int) is None,
        },
{
    match string_end_at(s, n, i) {
        Some(q) => {
            let body: String = decode_string_range(s, q, i);
            Some((body, q + 1))
        },
        None => None,
    }
}

/// How a syntactically valid number maps into the decimal representation:
/// the written value when mantissa and scale fit, zero otherwise.
pub open spec fn json_num_decimal(neg: bool, m0: nat, s0: nat, eneg: bool, eabs: nat) -> Decimal {
    if !eneg && eabs >= s0 {
        let m = m0 * pow10((eabs - s0) as nat);
        if m <= u128::MAX {
            Decimal { negative: neg, mantissa: m as u128, scale: 0 }
        } else {
            Decimal { negative: false, mantissa: 0, scale: 0 }
        }
    } else {
        let sc = if eneg {
            s0 + eabs
        } else {
            (s0 - eabs) as nat
        };
        if m0 <= u128::MAX && sc <= u32::MAX {
            Decimal { negative: neg, mantissa: m0 as u128, scale: sc as u32 }
        } else {
            Decimal { negative: false, mantissa: 0, scale: 0 }
        }
    }
}

/// The number starting at `i` — optional `-`, an integer part without
/// leading zeros, optional fraction, optional exponent — its decimal value,
/// and the position just past it.
pub open spec fn json_number(s: Seq<char>, i: int) -> Option<(Decimal, int)> {
    let neg = 0 <= i < s.len() && s[i] == '-';
    let b0 = if neg {
        i + 1
    } else {
        i
    };
    let d1 = digits_end(s, b0);
    if d1 == b0 {
        None
    } else if s[b0] == '0' && d1 > b0 + 1 {
        None
    } else {
        let has_frac = d1 < s.len() && s[d1] == '.';
        let f0 = d1 + 1;
        let f1 = digits_end(s, f0);
        if has_frac && f1 == f0 {
            None
        } else {
            let x = if has_frac {
                f1
            } else {
                d1
            };
            let has_exp = x < s.len() && (s[x] == 'e' || s[x] == 'E');
            let esigned = has_exp && x + 1 < s.len() && (s[x + 1] == '-' || s[x + 1] == '+');
            let eneg = esigned && s[x + 1] == '-';
            let x1 = if esigned {
                x + 2
            } else {
                x + 1
            };
            let x2 = digits_end(s, x1);
            if has_exp && x2 == x1 {
                None
            } else {
                let m0 = digits_to_nat(
                    s.subrange(b0, d1) + (if has_frac {
                        s.subrange(f0, f1)
                    } else {
                        Seq::empty()
                    }),
                );
                let s0: nat = if has_frac {
                    (f1 - f0) as nat
                } else {
                    0
                };
                let eabs: nat = if has_exp {
                    digits_to_nat(s.subrange(x1, x2))
                } else {
                    0
                };
                let end = if has_exp {
                    x2
                } else {
                    x
                };
                Some((json_num_decimal(neg, m0, s0, has_exp && eneg, eabs), end))
            }
        }
    }
}

proof fn lemma_digits_end_bounds(s: Seq<char>, i: int)
    requires
        0 <= i <= s.len(),
    ensures
        i <= digits_end(s, i) <= s.len(),
    decreases s.len() - i,
{
    if i < s.len() && is_digit_char(s[i]) {
        lemma_digits_end_bounds(s, i + 1);
    }
}

proof fn lemma_json_number_bounds(s: Seq<char>, i: int)
    requires
        0 <= i <= s.len(),
    ensures
        match json_number(s, i) {
            Some(p) => i < p.1 <= s.len(),
            None => true,
        },
{
    let neg = 0 <= i < s.len() && s[i] == '-';
    let b0 = if neg {
        i + 1
    } else {
        i
    };
    if b0 <= s.len() {
        lemma_digits_end_bounds(s, b0);
        let d1 = digits_end(s, b0);
        if d1 + 1 <= s.len() {
            lemma_digits_end_bounds(s, d1 + 1);
        }
        let f1 = digits_end(s, d1 + 1);
        if d1 + 2 <= s.len() {
            lemma_digits_end_bounds(s, d1 + 2);
        }
        if f1 + 1 <= s.len() {
            lemma_digits_end_bounds(s, f1 + 1);
        }
        if f1 + 2 <= s.len() {
            lemma_digits_end_bounds(s, f1 + 2);
        }
    }
}

/// Scans a digit run from `start`, extending an accumulated digit string
/// `pre`; tracks the accumulated value, or that it exceeds 128 bits.
fn scan_digits_acc(
    s: &str,
    n: usize,
    start: usize,
    Ghost(pre): Ghost<Seq<char>>,
    acc0: u128,
    ovf0: bool,
) -> (res: (usize, u128, bool))
    requires
        start <= n == s@.len(),
        !ovf0 ==> acc0 as nat == digits_to_nat(pre),
        ovf0 ==> digits_to_nat(pre) > u128::MAX,
    ensures
        res.0 == digits_end(s@, start as int),
        start <= res.0 <= n,
        !res.2 ==> res.1 as nat == digits_to_nat(pre + s@.subrange(start as int, res.0 as int)),
        res.2 ==> digits_to_nat(pre + s@.subrange(start as int, res.0 as int)) > u128::MAX,
{
    let mut j: usize = start;
    let mut acc: u128 = acc0;
    let mut ovf: bool = ovf0;
    proof {
        assert(pre + s@.subrange(start as int, start as int) =~= pre);
    }
    while j < n && is_digit_at(s, j)
        invariant
            start <= j <= n == s@.len(),
            digits_end(s@, start as int) == digits_end(s@, j as int),
            !ovf ==> acc as nat == digits_to_nat(pre + s@.subrange(start as int, j as int)),
            ovf ==> digits_to_nat(pre + s@.subrange(start as int, j as int)) > u128::MAX,
        decreases n - j,
    {
        let c: char = s.get_char(j);
        let d: u32 = (c as u32) - 48;
        let ghost p = pre + s@.subrange(start as int, j as int);
        proof {
            assert(pre + s@.subrange(start as int, j + 1) =~= p.push(s@[j as int]));
            assert(p.push(s@[j as int]).drop_last() =~= p);
        }
        if !ovf {
            if acc > (u128::MAX - d as u128) / 10 {
                proof {
                    lemma_acc_overflow(acc as nat, d as nat);
                }
                ovf = true;
            } else {
                acc = acc * 10 + d as u128;
            }
        }
        j = j + 1;
    }
    (j, acc, ovf)
}

/// One `10^k >= self` step for the overflow cases.
proof fn lemma_mul_pow10_lower(m0: nat, k: nat)
    ensures
        m0 * pow10(k) >= m0,
        m0 >= 1 ==> m0 * pow10(k) >= pow10(k),
{
    lemma_pow10_positive(k);
    assert(m0 * pow10(k) >= m0 * 1) by (nonlinear_arith)
        requires pow10(k) >= 1,
    ;
    if m0 >= 1 {
        assert(m0 * pow10(k) >= 1 * pow10(k)) by (nonlinear_arith)
            requires m0 >= 1,
        ;
    }
}

/// Builds the decimal a scanned number denotes from the scan's outcome:
/// the mantissa digits' value `m0` (or that it exceeds 128 bits), the
/// fraction length, and the exponent's sign and magnitude.
#[verifier::rlimit(100)]
fn assemble_number(
    neg: bool,
    macc: u128,
    movf: bool,
    s0: usize,
    eneg: bool,
    eovf: bool,
    eacc: u128,
    Ghost(m0): Ghost<nat>,
    Ghost(et): Ghost<nat>,
) -> (d: Decimal)
    requires
        !movf ==> macc as nat == m0,
        movf ==> m0 > u128::MAX,
        !eovf ==> eacc as nat == et,
        eovf ==> et > u128::MAX,
    ensures
        d == json_num_decimal(neg, m0, s0 as nat, eneg, et),
{
    let zero: Decimal = Decimal { negative: false, mantissa: 0, scale: 0 };
    if movf {
        proof {
            if !eneg && et >= s0 as nat {
                lemma_mul_pow10_lower(m0, (et - s0 as nat) as nat);
            }
        }
        zero
    } else if !eneg {
        if eovf {
            proof {
                assert(et >= s0 as nat);
                let k = (et - s0 as nat) as nat;
                assert(k >= 39);
                lemma_pow10_38_fits();
                lemma_pow10_mono(39, k);
                lemma_mul_pow10_lower(m0, k);
                if m0 == 0 {
                    assert(m0 * pow10(k) == 0) by (nonlinear_arith)
                        requires m0 == 0,
                    ;
                }
            }
            if macc == 0 {
                Decimal { negative: neg, mantissa: 0, scale: 0 }
            } else {
                zero
            }
        } else if eacc >= s0 as u128 {
            let k: u128 = eacc - s0 as u128;
            if k >= 39 {
                proof {
                    lemma_pow10_38_fits();
                    lemma_pow10_mono(39, k as nat);
                    lemma_mul_pow10_lower(m0, k as nat);
                    if m0 == 0 {
                        assert(m0 * pow10(k as nat) == 0) by (nonlinear_arith)
                            requires m0 == 0,
                        ;
                    }
                }
                if macc == 0 {
                    Decimal { negative: neg, mantissa: 0, scale: 0 }
                } else {
                    zero
                }
            } else {
                let p: u128 = pow10_u128(k as u32);
                proof {
                    lemma_pow10_positive(k as nat);
                }
                if macc == 0 {
                    proof {
                        assert(m0 * pow10(k as nat) == 0) by (nonlinear_arith)
                            requires m0 == 0,
                        ;
                    }
                    Decimal { negative: neg, mantissa: 0, scale: 0 }
                } else if p > u128::MAX / macc {
                    proof {
                        vstd::arithmetic::div_mod::lemma_fundamental_div_mod(
                            u128::MAX as int,
                            macc as int,
                        );
                        assert(macc as int * p as int > u128::MAX)
                            by (nonlinear_arith)
                            requires
                                macc as int > 0,
                                p as int >= u128::MAX as int / macc as int + 1,
                                macc as int * (u128::MAX as int / macc as int)
                                    > u128::MAX - macc as int,
                        ;
                    }
                    zero
                } else {
                    proof {
                        vstd::arithmetic::div_mod::lemma_fundamental_div_mod(
                            u128::MAX as int,
                            macc as int,
                        );
                        assert(macc as int * p as int <= u128::MAX)
                            by (nonlinear_arith)
                            requires
                                macc as int > 0,
                                p as int <= u128::MAX as int / macc as int,
                                macc as int * (u128::MAX as int / macc as int) <= u128::MAX,
                        ;
                    }
                    Decimal { negative: neg, mantissa: macc * p, scale: 0 }
                }
            }
        } else {
            // the exponent shrinks into the scale
            let sc: usize = s0 - (eacc as usize);
            if sc > u32::MAX as usize {
                zero
            } else {
                Decimal { negative: neg, mantissa: macc, scale: sc as u32 }
            }
        }
    } else {
        // negative exponent: it adds to the scale
        if eovf || eacc > u32::MAX as u128 {
            zero
        } else {
            let sc128: u128 = s0 as u128 + eacc;
            if sc128 > u32::MAX as u128 {
                zero
            } else {
                Decimal { negative: neg, mantissa: macc, scale: sc128 as u32 }
            }
        }
    }
}

/// Reads the number starting at `i`: its decimal value and the position
/// just past it.
#[verifier::rlimit(100)]
fn parse_number_at(s: &str, n: usize, i: usize) -> (r: Option<(Decimal, usize)>)
    requires
        i < n == s@.len(),
    ensures
        match r {
            Some(p) => json_number(s@, i as int) == Some((p.0, p.1 as int)) && i < p.1 <= n,
            None => json_number(s@, i as int) is None,
        },
{
    let zero: Decimal = Decimal { negative: false, mantissa: 0, scale: 0 };
    let neg: bool = s.get_char(i) == '-';
    let b0: usize = if neg {
        i + 1
    } else {
        i
    };
    let (d1, acc1, ovf1): (usize, u128, bool) = scan_digits_acc(
        s,
        n,
        b0,
        Ghost(Seq::empty()),
        0,
        false,
    );
    proof {
        assert(Seq::<char>::empty() + s@.subrange(b0 as int, d1 as int) =~= s@.subrange(
            b0 as int,
            d1 as int,
        ));
    }
    if d1 == b0 {
        return None;
    }
    if d1 > b0 + 1 && s.get_char(b0) == '0' {
        return None;
    }
    let has_frac: bool = d1 < n && s.get_char(d1) == '.';
    let ghost int_digits = s@.subrange(b0 as int, d1 as int);
    let mut m_end: usize = d1;
    let mut macc: u128 = acc1;
    let mut movf: bool = ovf1;
    if has_frac {
        let f0: usize = d1 + 1;
        let (f1, acc2, ovf2): (usize, u128, bool) = scan_digits_acc(
            s,
            n,
            f0,
            Ghost(int_digits),
            acc1,
            ovf1,
        );
        if f1 == f0 {
            return None;
        }
        m_end = f1;
        macc = acc2;
        movf = ovf2;
    }
    let ghost mdigits = int_digits + (if has_frac {
        s@.subrange(d1 + 1, m_end as int)
    } else {
        Seq::<char>::empty()
    });
    proof {
        if !has_frac {
            assert(mdigits =~= int_digits);
        }
    }
    let ghost m0 = digits_to_nat(mdigits);
    let s0: usize = if has_frac {
        m_end - (d1 + 1)
    } else {
        0
    };
    // exponent
    let has_exp: bool = m_end < n && (s.get_char(m_end) == 'e' || s.get_char(m_end) == 'E');
    let mut eneg: bool = false;
    let mut eovf: bool = false;
    let mut eacc: u128 = 0;
    let mut end: usize = m_end;
    let mut x1: usize = m_end;
    let mut x2: usize = m_end;
    if has_exp {
        let esigned: bool = m_end + 1 < n && (s.get_char(m_end + 1) == '-' || s.get_char(
            m_end + 1,
        ) == '+');
        eneg = esigned && s.get_char(m_end + 1) == '-';
        x1 = if esigned {
            m_end + 2
        } else {
            m_end + 1
        };
        let (sx2, ea, eo): (usize, u128, bool) = scan_digits_acc(
            s,
            n,
            x1,
            Ghost(Seq::empty()),
            0,
            false,
        );
        proof {
            assert(Seq::<char>::empty() + s@.subrange(x1 as int, sx2 as int) =~= s@.subrange(
                x1 as int,
                sx2 as int,
            ));
        }
        if sx2 == x1 {
            return None;
        }
        x2 = sx2;
        eacc = ea;
        eovf = eo;
        end = x2;
    }
    let ghost et: nat = if has_exp {
        digits_to_nat(s@.subrange(x1 as int, x2 as int))
    } else {
        0
    };
    let d: Decimal = assemble_number(
        neg,
        macc,
        movf,
        s0,
        has_exp && eneg,
        eovf,
        eacc,
        Ghost(m0),
        Ghost(et),
    );
    Some((d, end))
}

/// Nested values are validated and skipped: `skip_value` passes over any
/// JSON value, `skip_elems` over the rest of a non-empty array, and
/// `skip_members` over the rest of a non-empty object, each returning the
/// position just past the value or closing bracket.
pub open spec fn skip_value(s: Seq<char>, i: int) -> Option<int>
    decreases s.len() - i, 0int,
    when 0 <= i <= s.len()
    via skip_value_decreases
{
    if i >= s.len() {
        None
    } else if s[i] == '"' {
        match string_end(s, i + 1) {
            Some(q) => Some(q + 1),
            None => None,
        }
    } else if s[i] == '-' || is_digit_char(s[i]) {
        match json_number(s, i) {
            Some(p) => Some(p.1),
            None => None,
        }
    } else if i + 4 <= s.len() && s.subrange(i, i + 4) == "true"@ {
        Some(i + 4)
    } else if i + 5 <= s.len() && s.subrange(i, i + 5) == "false"@ {
        Some(i + 5)
    } else if i + 4 <= s.len() && s.subrange(i, i + 4) == "null"@ {
        Some(i + 4)
    } else if s[i] == '{' {
        let j = skip_ws(s, i + 1);
        if j < s.len() && s[j] == '}' {
            Some(j + 1)
        } else {
            skip_members(s, j)
        }
    } else if s[i] == '[' {
        let j = skip_ws(s, i + 1);
        if j < s.len() && s[j] == ']' {
            Some(j + 1)
        } else {
            skip_elems(s, j)
        }
    } else {
        None
    }
}

/// See [`skip_value`].
pub open spec fn skip_elems(s: Seq<char>, i: int) -> Option<int>
    decreases s.len() - i, 1int,
    when 0 <= i <= s.len()
    via skip_elems_decreases
{
    match skip_value(s, i) {
        None => None,
        Some(e) => {
            let w = skip_ws(s, e);
            if w < s.len() && s[w] == ',' {
                let next = skip_ws(s, w + 1);
                if i < next <= s.len() {
                    skip_elems(s, next)
                } else {
                    // unreachable for well-formed input; keeps the
                    // recursion well-founded
                    None
                }
            } else if w < s.len() && s[w] == ']' {
                Some(w + 1)
            } else {
                None
            }
        },
    }
}

/// See [`skip_value`].
pub open spec fn skip_members(s: Seq<char>, i: int) -> Option<int>
    decreases s.len() - i, 1int,
    when 0 <= i <= s.len()
    via skip_members_decreases
{
    if i >= s.len() || s[i] != '"' {
        None
    } else {
        match string_end(s, i + 1) {
            None => None,
            Some(q) => {
                let p = skip_ws(s, q + 1);
                if p >= s.len() || s[p] != ':' {
                    None
                } else {
                    match skip_value(s, skip_ws(s, p + 1)) {
                        None => None,
                        Some(e) => {
                            let w = skip_ws(s, e);
                            if w < s.len() && s[w] == ',' {
                                let next = skip_ws(s, w + 1);
                                if i < next <= s.len() {
                                    skip_members(s, next)
                                } else {
                                    // unreachable for well-formed input;
                                    // keeps the recursion well-founded
                                    None
                                }
                            } else if w < s.len() && s[w] == '}' {
                                Some(w + 1)
                            } else {
                                None
                            }
                        },
                    }
                }
            },
        }
    }
}

#[via_fn]
proof fn skip_value_decreases(s: Seq<char>, i: int) {
    if 0 <= i < s.len() {
        lemma_skip_ws_bounds(s, i + 1);
    }
}

#[via_fn]
proof fn skip_elems_decreases(s: Seq<char>, i: int) {
}

#[via_fn]
proof fn skip_members_decreases(s: Seq<char>, i: int) {
    if 0 <= i < s.len() && s[i] == '"' {
        lemma_string_end_bounds(s, i + 1);
        if string_end(s, i + 1) is Some {
            let q = string_end(s, i + 1)->0;
            lemma_skip_ws_bounds(s, q + 1);
            let p = skip_ws(s, q + 1);
            if p < s.len() && s[p] == ':' {
                lemma_skip_ws_bounds(s, p + 1);
            }
        }
    }
}

/// Position bounds of the skip functions.
proof fn lemma_skip_value_bounds(s: Seq<char>, i: int)
    requires
        0 <= i <= s.len(),
    ensures
        match skip_value(s, i) {
            Some(e) => i < e <= s.len(),
            None => true,
        },
    decreases s.len() - i, 0int,
{
    if i < s.len() {
        lemma_string_end_bounds(s, i + 1);
        lemma_json_number_bounds(s, i);
        if s[i] == '{' || s[i] == '[' {
            lemma_skip_ws_bounds(s, i + 1);
            let j = skip_ws(s, i + 1);
            lemma_skip_elems_bounds(s, j);
            lemma_skip_members_bounds(s, j);
        }
    }
}

/// See [`lemma_skip_value_bounds`].
proof fn lemma_skip_elems_bounds(s: Seq<char>, i: int)
    requires
        0 <= i <= s.len(),
    ensures
        match skip_elems(s, i) {
            Some(e) => i < e <= s.len(),
            None => true,
        },
    decreases s.len() - i, 1int,
{
    lemma_skip_value_bounds(s, i);
    if skip_value(s, i) is Some {
        let e = skip_value(s, i)->0;
        lemma_skip_ws_bounds(s, e);
        let w = skip_ws(s, e);
        if w < s.len() && s[w] == ',' {
            lemma_skip_ws_bounds(s, w + 1);
            let next = skip_ws(s, w + 1);
            if i < next <= s.len() {
                lemma_skip_elems_bounds(s, next);
            }
        }
    }
}

/// See [`lemma_skip_value_bounds`].
proof fn lemma_skip_members_bounds(s: Seq<char>, i: int)
    requires
        0 <= i <= s.len(),
    ensures
        match skip_members(s, i) {
            Some(e) => i < e <= s.len(),
            None => true,
        },
    decreases s.len() - i, 1int,
{
    if i < s.len() && s[i] == '"' {
        lemma_string_end_bounds(s, i + 1);
        if string_end(s, i + 1) is Some {
            let q = string_end(s, i + 1)->0;
            lemma_skip_ws_bounds(s, q + 1);
            let p = skip_ws(s, q + 1);
            if p < s.len() && s[p] == ':' {
                lemma_skip_ws_bounds(s, p + 1);
                let v0 = skip_ws(s, p + 1);
                lemma_skip_value_bounds(s, v0);
                if skip_value(s, v0) is Some {
                    let e = skip_value(s, v0)->0;
                    lemma_skip_ws_bounds(s, e);
                    let w = skip_ws(s, e);
                    if w < s.len() && s[w] == ',' {
                        lemma_skip_ws_bounds(s, w + 1);
                        let next = skip_ws(s, w + 1);
                        if i < next <= s.len() {
                            lemma_skip_members_bounds(s, next);
                        }
                    }
                }
            }
        }
    }
}

/// Passes over the JSON value starting at `i`.
fn skip_value_at(s: &str, n: usize, i: usize) -> (r: Option<usize>)
    requires
        i <= n == s@.len(),
    ensures
        match r {
            Some(e) => skip_value(s@, i as int) == Some(e as int) && i < e <= n,
            None => skip_value(s@, i as int) is None,
        },
    decreases n - i, 0int,
{
    if i >= n {
        return None;
    }
    let c: char = s.get_char(i);
    proof {
        lemma_literal_chars(s@, i as int);
    }
    if c == '"' {
        match string_end_at(s, n, i + 1) {
            Some(q) => Some(q + 1),
            None => None,
        }
    } else if c == '-' || is_digit_at(s, i) {
        match parse_number_at(s, n, i) {
            Some((_, e)) => Some(e),
            None => None,
        }
    } else if c == 't' || c == 'f' || c == 'n' {
        proof {
            lemma_literal_chars(s@, i as int);
        }
        match literal_end_at(s, n, i) {
            Some(e) => Some(e),
            None => None,
        }
    } else if c == '{' {
        let j: usize = skip_ws_at(s, n, i + 1);
        if j < n && s.get_char(j) == '}' {
            Some(j + 1)
        } else {
            skip_members_at(s, n, j)
        }
    } else if c == '[' {
        let j: usize = skip_ws_at(s, n, i + 1);
        if j < n && s.get_char(j) == ']' {
            Some(j + 1)
        } else {
            skip_elems_at(s, n, j)
        }
    } else {
        proof {
            lemma_literal_chars(s@, i as int);
        }
        None
    }
}

/// Passes over the rest of a non-empty array from the start of its first
/// remaining element.
fn skip_elems_at(s: &str, n: usize, i: usize) -> (r: Option<usize>)
    requires
        i <= n == s@.len(),
    ensures
        match r {
            Some(e) => skip_elems(s@, i as int) == Some(e as int) && i < e <= n,
            None => skip_elems(s@, i as int) is None,
        },
    decreases n - i, 1int,
{
    let e: usize = match skip_value_at(s, n, i) {
        Some(e) => e,
        None => {
            return None;
        },
    };
    let w: usize = skip_ws_at(s, n, e);
    if w < n && s.get_char(w) == ',' {
        let next: usize = skip_ws_at(s, n, w + 1);
        skip_elems_at(s, n, next)
    } else if w < n && s.get_char(w) == ']' {
        Some(w + 1)
    } else {
        None
    }
}

/// Passes over the rest of a non-empty object from the start of its first
/// remaining key.
fn skip_members_at(s: &str, n: usize, i: usize) -> (r: Option<usize>)
    requires
        i <= n == s@.len(),
    ensures
        match r {
            Some(e) => skip_members(s@, i as int) == Some(e as int) && i < e <= n,
            None => skip_members(s@, i as int) is None,
        },
    decreases n - i, 1int,
{
    if i >= n || s.get_char(i) != '"' {
        return None;
    }
    let q: usize = match string_end_at(s, n, i + 1) {
        Some(q) => q,
        None => {
            return None;
        },
    };
    let p: usize = skip_ws_at(s, n, q + 1);
    if p >= n || s.get_char(p) != ':' {
        return None;
    }
    let v0: usize = skip_ws_at(s, n, p + 1);
    let e: usize = match skip_value_at(s, n, v0) {
        Some(e) => e,
        None => {
            return None;
        },
    };
    let w: usize = skip_ws_at(s, n, e);
    if w < n && s.get_char(w) == ',' {
        let next: usize = skip_ws_at(s, n, w + 1);
        skip_members_at(s, n, next)
    } else if w < n && s.get_char(w) == '}' {
        Some(w + 1)
    } else {
        None
    }
}

/// First characters pin the literal branches down.
proof fn lemma_literal_chars(s: Seq<char>, i: int)
    requires
        0 <= i < s.len(),
    ensures
        i + 4 <= s.len() && s.subrange(i, i + 4) == "true"@ ==> s[i] == 't',
        i + 5 <= s.len() && s.subrange(i, i + 5) == "false"@ ==> s[i] == 'f',
        i + 4 <= s.len() && s.subrange(i, i + 4) == "null"@ ==> s[i] == 'n',
{
    reveal_strlit("true");
    reveal_strlit("false");
    reveal_strlit("null");
    if i + 4 <= s.len() && s.subrange(i, i + 4) == "true"@ {
        assert(s[i] == s.subrange(i, i + 4)[0]);
    }
    if i + 5 <= s.len() && s.subrange(i, i + 5) == "false"@ {
        assert(s[i] == s.subrange(i, i + 5)[0]);
    }
    if i + 4 <= s.len() && s.subrange(i, i + 4) == "null"@ {
        assert(s[i] == s.subrange(i, i + 4)[0]);
    }
}

/// Reads the end of the `true`/`false`/`null` literal starting at `i`, if
/// one stands there.
fn literal_end_at(s: &str, n: usize, i: usize) -> (r: Option<usize>)
    requires
        i < n == s@.len(),
        s@[i as int] == 't' || s@[i as int] == 'f' || s@[i as int] == 'n',
    ensures
        ({
            let sv = s@;
            let j = i as int;
            match r {
                Some(e) => (e == i + 4 && ((j + 4 <= n && sv.subrange(j, j + 4) == "true"@)
                    || (j + 4 <= n && sv.subrange(j, j + 4) == "null"@))) || (e == i + 5 && j + 5
                    <= n && sv.subrange(j, j + 5) == "false"@),
                None => !(j + 4 <= n && sv.subrange(j, j + 4) == "true"@) && !(j + 5 <= n
                    && sv.subrange(j, j + 5) == "false"@) && !(j + 4 <= n && sv.subrange(
                    j,
                    j + 4,
                ) == "null"@),
            }
        }),
{
    proof {
        reveal_strlit("true");
        reveal_strlit("false");
        reveal_strlit("null");
    }
    let c: char = s.get_char(i);
    if c == 't' {
        if n - i >= 4 && s.get_char(i + 1) == 'r' && s.get_char(i + 2) == 'u' && s.get_char(
            i + 3,
        ) == 'e' {
            proof {
                assert(s@.subrange(i as int, i + 4) =~= "true"@);
                lemma_literal_chars(s@, i as int);
            }
            Some(i + 4)
        } else {
            proof {
                if i + 4 <= n && s@.subrange(i as int, i + 4) == "true"@ {
                    assert(s@[i + 1] == "true"@[1]);
                    assert(s@[i + 2] == "true"@[2]);
                    assert(s@[i + 3] == "true"@[3]);
                }
                lemma_literal_chars(s@, i as int);
            }
            None
        }
    } else if c == 'f' {
        if n - i >= 5 && s.get_char(i + 1) == 'a' && s.get_char(i + 2) == 'l' && s.get_char(
            i + 3,
        ) == 's' && s.get_char(i + 4) == 'e' {
            proof {
                assert(s@.subrange(i as int, i + 5) =~= "false"@);
                lemma_literal_chars(s@, i as int);
            }
            Some(i + 5)
        } else {
            proof {
                if i + 5 <= n && s@.subrange(i as int, i + 5) == "false"@ {
                    assert(s@[i + 1] == "false"@[1]);
                    assert(s@[i + 2] == "false"@[2]);
                    assert(s@[i + 3] == "false"@[3]);
                    assert(s@[i + 4] == "false"@[4]);
                }
                lemma_literal_chars(s@, i as int);
            }
            None
        }
    } else {
        if n - i >= 4 && s.get_char(i + 1) == 'u' && s.get_char(i + 2) == 'l' && s.get_char(
            i + 3,
        ) == 'l' {
            proof {
                assert(s@.subrange(i as int, i + 4) =~= "null"@);
                lemma_literal_chars(s@, i as int);
            }
            Some(i + 4)
        } else {
            proof {
                if i + 4 <= n && s@.subrange(i as int, i + 4) == "null"@ {
                    assert(s@[i + 1] == "null"@[1]);
                    assert(s@[i + 2] == "null"@[2]);
                    assert(s@[i + 3] == "null"@[3]);
                }
                lemma_literal_chars(s@, i as int);
            }
            None
        }
    }
}

/// The value starting at position `i` and the position just past it.
/// Strings decode; nested objects and arrays read as composites.
pub open spec fn spec_value(s: Seq<char>, i: int) -> Option<(SpecJson, int)> {
    if i < 0 || i >= s.len() {
        None
    } else if s[i] == '"' {
        match string_end(s, i + 1) {
            Some(q) => Some((SpecJson::SStr(decode_str(s, i + 1, q)), q + 1)),
            None => None,
        }
    } else if s[i] == '-' || is_digit_char(s[i]) {
        match json_number(s, i) {
            Some(p) => Some((SpecJson::SNum(p.0), p.1)),
            None => None,
        }
    } else if i + 4 <= s.len() && s.subrange(i, i + 4) == "true"@ {
        Some((SpecJson::SBool(true), i + 4))
    } else if i + 5 <= s.len() && s.subrange(i, i + 5) == "false"@ {
        Some((SpecJson::SBool(false), i + 5))
    } else if i + 4 <= s.len() && s.subrange(i, i + 4) == "null"@ {
        Some((SpecJson::SNull, i + 4))
    } else if s[i] == '{' || s[i] == '[' {
        match skip_value(s, i) {
            Some(e) => Some((SpecJson::SComposite, e)),
            None => None,
        }
    } else {
        None
    }
}

proof fn lemma_value_bounds(s: Seq<char>, i: int)
    requires
        0 <= i <= s.len(),
    ensures
        match spec_value(s, i) {
            Some(p) => i < p.1 <= s.len(),
            None => true,
        },
{
    if 0 <= i < s.len() {
        lemma_string_end_bounds(s, i + 1);
        lemma_json_number_bounds(s, i);
        lemma_skip_value_bounds(s, i);
    }
}

/// Reads the value starting at `i` and the position just past it.
fn parse_value_at(s: &str, n: usize, i: usize) -> (r: Option<(JsonValue, usize)>)
    requires
        i <= n == s@.len(),
    ensures
        match r {
            Some(p) => spec_value(s@, i as int) == Some((p.0@, p.1 as int)) && i < p.1 <= n,
            None => spec_value(s@, i as int) is None,
        },
{
    if i >= n {
        return None;
    }
    let c: char = s.get_char(i);
    proof {
        lemma_literal_chars(s@, i as int);
    }
    if c == '"' {
        match read_string_at(s, n, i + 1) {
            Some((body, e)) => Some((JsonValue::Str(body), e)),
            None => None,
        }
    } else if c == '-' || is_digit_at(s, i) {
        match parse_number_at(s, n, i) {
            Some((d, e)) => Some((JsonValue::Num(d), e)),
            None => None,
        }
    } else if c == 't' || c == 'f' || c == 'n' {
        proof {
            lemma_literal_chars(s@, i as int);
        }
        match literal_end_at(s, n, i) {
            Some(e) => {
                if c == 't' {
                    Some((JsonValue::Bool(true), e))
                } else if c == 'f' {
                    Some((JsonValue::Bool(false), e))
                } else {
                    Some((JsonValue::Null, e))
                }
            },
            None => None,
        }
    } else if c == '{' || c == '[' {
        match skip_value_at(s, n, i) {
            Some(e) => Some((JsonValue::Composite, e)),
            None => None,
        }
    } else {
        proof {
            lemma_literal_chars(s@, i as int);
        }
        None
    }
}

/// The members from position `i` (at the start of a key) up to and including
/// the closing brace, and the position just past that brace. Keys decode
/// like every string.
pub open spec fn spec_members(s: Seq<char>, i: int) -> Option<(Seq<(Seq<char>, SpecJson)>, int)>
    decreases s.len() - i,
    when 0 <= i <= s.len()
    via spec_members_decreases
{
    if i >= s.len() || s[i] != '"' {
        None
    } else {
        match string_end(s, i + 1) {
            None => None,
            Some(q) => {
                let key = decode_str(s, i + 1, q);
                let p = skip_ws(s, q + 1);
                if p >= s.len() || s[p] != ':' {
                    None
                } else {
                    match spec_value(s, skip_ws(s, p + 1)) {
                        None => None,
                        Some((v, e)) => {
                            let w = skip_ws(s, e);
                            if w < s.len() && s[w] == ',' {
                                match spec_members(s, skip_ws(s, w + 1)) {
                                    None => None,
                                    Some((rest, e2)) => Some((seq![(key, v)] + rest, e2)),
                                }
                            } else if w < s.len() && s[w] == '}' {
                                Some((seq![(key, v)], w + 1))
                            } else {
                                None
                            }
                        },
                    }
                }
            },
        }
    }
}

#[via_fn]
proof fn spec_members_decreases(s: Seq<char>, i: int) {
    if 0 <= i < s.len() && s[i] == '"' {
        lemma_string_end_bounds(s, i + 1);
        if string_end(s, i + 1) is Some {
            let q = string_end(s, i + 1)->0;
            lemma_skip_ws_bounds(s, q + 1);
            let p = skip_ws(s, q + 1);
            if p < s.len() && s[p] == ':' {
                lemma_skip_ws_bounds(s, p + 1);
                lemma_value_bounds(s, skip_ws(s, p + 1));
                if spec_value(s, skip_ws(s, p + 1)) is Some {
                    let e = spec_value(s, skip_ws(s, p + 1))->Some_0.1;
                    lemma_skip_ws_bounds(s, e);
                    let w = skip_ws(s, e);
                    if w < s.len() && s[w] == ',' {
                        lemma_skip_ws_bounds(s, w + 1);
                    }
                }
            }
        }
    }
}

/// The view of an exec member list.
pub open spec fn members_view(ms: Seq<(String, JsonValue)>) -> Seq<(Seq<char>, SpecJson)> {
    ms.map_values(|p: (String, JsonValue)| (p.0@, p.1@))
}

/// Reads members from position `i` (at the start of a key) up to and
/// including the closing brace.
fn parse_members_at(s: &str, n: usize, i: usize) -> (r: Option<(Vec<(String, JsonValue)>, usize)>)
    requires
        i <= n == s@.len(),
    ensures
        match r {
            Some(p) => spec_members(s@, i as int) == Some((members_view(p.0@), p.1 as int))
                && p.1 <= n,
            None => spec_members(s@, i as int) is None,
        },
    decreases n - i,
{
    if i >= n || s.get_char(i) != '"' {
        return None;
    }
    let (key, kend): (String, usize) = match read_string_at(s, n, i + 1) {
        Some(p) => p,
        None => {
            return None;
        },
    };
    let p: usize = skip_ws_at(s, n, kend);
    if p >= n || s.get_char(p) != ':' {
        return None;
    }
    let vstart: usize = skip_ws_at(s, n, p + 1);
    let (v, e): (JsonValue, usize) = match parse_value_at(s, n, vstart) {
        Some(ve) => ve,
        None => {
            return None;
        },
    };
    let w: usize = skip_ws_at(s, n, e);
    if w < n && s.get_char(w) == ',' {
        let next: usize = skip_ws_at(s, n, w + 1);
        match parse_members_at(s, n, next) {
            Some((rest, e2)) => {
                let ghost rest_view = rest@;
                let mut ms: Vec<(String, JsonValue)> = rest;
                ms.insert(0, (key, v));
                proof {
                    assert(members_view(ms@) =~= seq![(key@, v@)] + members_view(rest_view));
                }
                Some((ms, e2))
            },
            None => None,
        }
    } else if w < n && s.get_char(w) == '}' {
        let mut ms: Vec<(String, JsonValue)> = Vec::new();
        ms.push((key, v));
        proof {
            assert(members_view(ms@) =~= seq![(key@, v@)]);
        }
        Some((ms, w + 1))
    } else {
        None
    }
}

/// The member list an intent-object text denotes, or `None` when the text
/// lies outside JSON.
pub open spec fn spec_object(s: Seq<char>) -> Option<Seq<(Seq<char>, SpecJson)>> {
    let i = skip_ws(s, 0);
    if i >= s.len() || s[i] != '{' {
        None
    } else {
        let j = skip_ws(s, i + 1);
        if j < s.len() && s[j] == '}' {
            if skip_ws(s, j + 1) == s.len() {
                Some(Seq::empty())
            } else {
                None
            }
        } else {
            match spec_members(s, j) {
                None => None,
                Some((ms, e)) => {
                    if skip_ws(s, e) == s.len() {
                        Some(ms)
                    } else {
                        None
                    }
                },
            }
        }
    }
}

/// Reads a whole intent-object text; `None` when the text lies outside
/// JSON or is not a single object.
pub fn parse_object(s: &str) -> (r: Option<Vec<(String, JsonValue)>>)
    ensures
        match r {
            Some(ms) => spec_object(s@) == Some(members_view(ms@)),
            None => spec_object(s@) is None,
        },
{
    let n: usize = s.unicode_len();
    let i: usize = skip_ws_at(s, n, 0);
    if i >= n || s.get_char(i) != '{' {
        return None;
    }
    let j: usize = skip_ws_at(s, n, i + 1);
    if j < n && s.get_char(j) == '}' {
        let t: usize = skip_ws_at(s, n, j + 1);
        if t == n {
            let ms: Vec<(String, JsonValue)> = Vec::new();
            proof {
                assert(members_view(ms@) =~= Seq::<(Seq<char>, SpecJson)>::empty());
            }
            Some(ms)
        } else {
            None
        }
    } else {
        match parse_members_at(s, n, j) {
            Some((ms, e)) => {
                let t: usize = skip_ws_at(s, n, e);
                if t == n {
                    Some(ms)
                } else {
                    None
                }
            },
            None => None,
        }
    }
}

} // verus!
