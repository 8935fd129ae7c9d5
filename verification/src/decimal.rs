//! Unsigned-mantissa decimal amounts and their conversion to the chain's
//! minor unit (1 human unit = 10^18 minor units).
//!
//! An amount written `d1...dn.f1...fm` is held as the integer mantissa
//! `d1...dn f1...fm` together with `scale = m`, plus a sign flag; its value is
//! `mantissa / 10^scale`, negated when the flag is set. Conversion to minor
//! units multiplies the value by `10^18` and truncates toward zero.

use vstd::prelude::*;
use vstd::arithmetic::div_mod::{
    lemma_div_by_multiple, lemma_div_denominator, lemma_fundamental_div_mod,
};

verus! {

/// Number of decimal digits in one human unit of the chain's currency.
pub const MINOR_UNIT_DIGITS: u32 = 18;

/// A decimal number `(-1)^negative * mantissa / 10^scale`.
#[derive(Clone, Copy, Debug, PartialEq, Eq, Structural)]
pub struct Decimal {
    pub negative: bool,
    pub mantissa: u128,
    pub scale: u32,
}

/// `10^e` as a mathematical natural.
pub open spec fn pow10(e: nat) -> nat
    decreases e,
{
    if e == 0 {
        1
    } else {
        10 * pow10((e - 1) as nat)
    }
}

/// The amount in minor units that a decimal magnitude converts to: the value
/// scaled by `10^18` and truncated toward zero.
pub open spec fn minor_units_of(mantissa: nat, scale: nat) -> nat {
    (mantissa * pow10(MINOR_UNIT_DIGITS as nat)) / pow10(scale)
}

pub proof fn lemma_pow10_positive(e: nat)
    ensures
        pow10(e) >= 1,
    decreases e,
{
    if e > 0 {
        lemma_pow10_positive((e - 1) as nat);
    }
}

pub proof fn lemma_pow10_add(a: nat, b: nat)
    ensures
        pow10(a + b) == pow10(a) * pow10(b),
    decreases a,
{
    if a == 0 {
        assert(pow10(0 + b) == 1 * pow10(b));
    } else {
        lemma_pow10_add((a - 1) as nat, b);
        assert(pow10(a + b) == 10 * pow10((a + b - 1) as nat));
        assert((a + b - 1) as nat == (a - 1) as nat + b);
        assert(10 * (pow10((a - 1) as nat) * pow10(b))
            == (10 * pow10((a - 1) as nat)) * pow10(b)) by (nonlinear_arith);
        assert(pow10(a) == 10 * pow10((a - 1) as nat));
    }
}

pub proof fn lemma_pow10_38_fits()
    ensures
        pow10(38) <= u128::MAX,
        pow10(39) > u128::MAX,
{
    reveal_with_fuel(pow10, 40);
    assert(pow10(38) == 100000000000000000000000000000000000000nat);
    assert(pow10(39) == 1000000000000000000000000000000000000000nat);
}

pub proof fn lemma_pow10_mono(a: nat, b: nat)
    requires
        a <= b,
    ensures
        pow10(a) <= pow10(b),
    decreases b,
{
    if a < b && b > 0 {
        lemma_pow10_mono(a, (b - 1) as nat);
        lemma_pow10_positive((b - 1) as nat);
    }
}

impl Decimal {
    /// A decimal is strictly positive exactly when it is non-negative and its
    /// mantissa is non-zero.
    pub open spec fn is_positive(self) -> bool {
        !self.negative && self.mantissa > 0
    }

    /// The zero amount (also what extraction substitutes for a missing or
    /// unreadable amount field; dispatch then rejects it as non-positive).
    pub fn zero() -> (r: Decimal)
        ensures
            r == (Decimal { negative: false, mantissa: 0u128, scale: 0u32 }),
            !r.is_positive(),
    {
        Decimal { negative: false, mantissa: 0, scale: 0 }
    }

    /// The minor-unit amount this decimal denotes, ignoring the sign.
    pub open spec fn spec_minor_units(self) -> nat {
        minor_units_of(self.mantissa as nat, self.scale as nat)
    }

    /// Converts the magnitude to minor units, truncating toward zero;
    /// `None` exactly when the result does not fit in 128 bits.
    pub fn to_minor_units(&self) -> (r: Option<u128>)
        ensures
            match r {
                Some(w) => w as nat == self.spec_minor_units(),
                None => self.spec_minor_units() > u128::MAX,
            },
    {
        let m: u128 = self.mantissa;
        if self.scale <= MINOR_UNIT_DIGITS {
            let e: u32 = MINOR_UNIT_DIGITS - self.scale;
            let p: u128 = pow10_u128(e);
            proof {
                lemma_pow10_add(e as nat, self.scale as nat);
                lemma_pow10_positive(self.scale as nat);
                // m * 10^18 / 10^scale == m * 10^(18 - scale)
                assert(m as nat * pow10(MINOR_UNIT_DIGITS as nat)
                    == (m as nat * pow10(e as nat)) * pow10(self.scale as nat))
                    by (nonlinear_arith)
                    requires pow10(MINOR_UNIT_DIGITS as nat)
                        == pow10(e as nat) * pow10(self.scale as nat),
                ;
                lemma_div_by_multiple(
                    (m as nat * pow10(e as nat)) as int,
                    pow10(self.scale as nat) as int,
                );
            }
            if m == 0 {
                Some(0)
            } else if p > u128::MAX / m {
                proof {
                    // p > MAX / m implies m * p > MAX
                    lemma_fundamental_div_mod(u128::MAX as int, m as int);
                    assert(m as int * p as int > u128::MAX)
                        by (nonlinear_arith)
                        requires
                            m as int > 0,
                            p as int >= u128::MAX as int / m as int + 1,
                            m as int * (u128::MAX as int / m as int)
                                > u128::MAX - m as int,
                    ;
                }
                None
            } else {
                proof {
                    lemma_fundamental_div_mod(u128::MAX as int, m as int);
                    assert(m as int * p as int <= u128::MAX)
                        by (nonlinear_arith)
                        requires
                            m as int > 0,
                            p as int <= u128::MAX as int / m as int,
                            m as int * (u128::MAX as int / m as int) <= u128::MAX,
                    ;
                }
                Some(m * p)
            }
        } else {
            let e: u32 = self.scale - MINOR_UNIT_DIGITS;
            proof {
                lemma_pow10_add(MINOR_UNIT_DIGITS as nat, e as nat);
                lemma_pow10_positive(MINOR_UNIT_DIGITS as nat);
                lemma_pow10_positive(e as nat);
                // m * 10^18 / 10^scale == m / 10^(scale - 18)
                lemma_div_denominator(
                    (m as nat * pow10(MINOR_UNIT_DIGITS as nat)) as int,
                    pow10(MINOR_UNIT_DIGITS as nat) as int,
                    pow10(e as nat) as int,
                );
                lemma_div_by_multiple(m as int, pow10(MINOR_UNIT_DIGITS as nat) as int);
                assert(m as nat * pow10(MINOR_UNIT_DIGITS as nat)
                    == pow10(MINOR_UNIT_DIGITS as nat) * m as nat) by (nonlinear_arith);
            }
            if e <= 38 {
                let p: u128 = pow10_u128(e);
                proof {
                    lemma_pow10_positive(e as nat);
                }
                Some(m / p)
            } else {
                proof {
                    lemma_pow10_38_fits();
                    lemma_pow10_mono(39, e as nat);
                    assert((m as int) / (pow10(e as nat) as int) == 0) by {
                        vstd::arithmetic::div_mod::lemma_basic_div(
                            m as int,
                            pow10(e as nat) as int,
                        );
                    }
                }
                Some(0)
            }
        }
    }
}

/// Law: scaling an amount to minor units and scaling back recovers the
/// original amount to within one minor unit. With `w` the minor-unit value
/// of a magnitude `m / 10^scale`, the decimal `w / 10^18` never exceeds the
/// original and falls short of it by less than `1 / 10^18`; when the amount
/// has at most 18 fractional digits the recovery is exact. Re-scaling the
/// recovered decimal yields `w` again.
pub proof fn lemma_minor_units_roundtrip(m: nat, scale: nat)
    ensures
        minor_units_of(m, scale) * pow10(scale) <= m * pow10(MINOR_UNIT_DIGITS as nat)
            < (minor_units_of(m, scale) + 1) * pow10(scale),
        scale <= MINOR_UNIT_DIGITS ==> minor_units_of(m, scale) * pow10(scale) == m * pow10(
            MINOR_UNIT_DIGITS as nat,
        ),
        minor_units_of(minor_units_of(m, scale), MINOR_UNIT_DIGITS as nat) == minor_units_of(
            m,
            scale,
        ),
{
    let p18 = pow10(MINOR_UNIT_DIGITS as nat);
    let ps = pow10(scale);
    let w = minor_units_of(m, scale);
    lemma_pow10_positive(scale);
    lemma_pow10_positive(MINOR_UNIT_DIGITS as nat);
    lemma_fundamental_div_mod((m * p18) as int, ps as int);
    assert((m * p18) as int == ps * ((m * p18) as int / ps as int) + (m * p18) as int % ps as int);
    assert(w as int == (m * p18) as int / ps as int);
    let r = (m * p18) as int % ps as int;
    assert(0 <= r < ps);
    assert(ps * w as int <= (m * p18) as int && ((m * p18) as int) < ps * ((w + 1) as int))
        by (nonlinear_arith)
        requires
            (m * p18) as int == ps * w as int + r,
            0 <= r < ps,
    ;
    assert(ps * w as int == w * ps) by (nonlinear_arith);
    assert(ps * (w + 1) as int == (w + 1) * ps) by (nonlinear_arith);
    if scale <= MINOR_UNIT_DIGITS as nat {
        let e = (MINOR_UNIT_DIGITS as nat - scale) as nat;
        lemma_pow10_add(e, scale);
        assert(m * p18 == (m * pow10(e)) * ps) by (nonlinear_arith)
            requires p18 == pow10(e) * ps,
        ;
        lemma_div_by_multiple((m * pow10(e)) as int, ps as int);
        assert(w == m * pow10(e));
        assert((m * pow10(e)) * ps == w * ps);
    }
    // re-scaling the recovered decimal is the identity
    lemma_div_by_multiple(w as int, p18 as int);
    assert(minor_units_of(w, MINOR_UNIT_DIGITS as nat) == (w * p18) / p18);
}

/// Whether a character is an ASCII decimal digit.
pub open spec fn is_digit_char(c: char) -> bool {
    48 <= c as u32 <= 57
}

/// The numeric value of an ASCII decimal digit.
pub open spec fn digit_val(c: char) -> nat {
    (c as u32 - 48) as nat
}

/// All characters of `s` in positions `[i, j)` are ASCII digits.
pub open spec fn all_digits(s: Seq<char>, i: int, j: int) -> bool {
    forall|k: int| i <= k < j ==> is_digit_char(#[trigger] s[k])
}

/// The natural number written by a sequence of ASCII digits, most
/// significant digit first.
pub open spec fn digits_to_nat(s: Seq<char>) -> nat
    decreases s.len(),
{
    if s.len() == 0 {
        0
    } else {
        10 * digits_to_nat(s.drop_last()) + digit_val(s.last())
    }
}

/// The first position at or after `i` holding `'.'`, or `s.len()` if none.
pub open spec fn first_dot_from(s: Seq<char>, i: int) -> int
    decreases s.len() - i,
{
    if i < 0 || i >= s.len() {
        s.len() as int
    } else if s[i] == '.' {
        i
    } else {
        first_dot_from(s, i + 1)
    }
}

/// A decimal body (the token after an optional sign) is well formed when it
/// is one or more digits, optionally followed by a dot and one or more
/// digits.
pub open spec fn body_ok(b: Seq<char>) -> bool {
    let k = first_dot_from(b, 0);
    &&& k > 0
    &&& all_digits(b, 0, k)
    &&& (k < b.len() ==> (k + 1 < b.len() && all_digits(b, k + 1, b.len() as int)))
}

/// The digits of a well-formed body with the dot removed.
pub open spec fn body_digits(b: Seq<char>) -> Seq<char> {
    let k = first_dot_from(b, 0);
    if k < b.len() {
        b.subrange(0, k) + b.subrange(k + 1, b.len() as int)
    } else {
        b
    }
}

/// The number of fractional digits of a well-formed body.
pub open spec fn body_scale(b: Seq<char>) -> nat {
    let k = first_dot_from(b, 0);
    if k < b.len() {
        (b.len() - k - 1) as nat
    } else {
        0
    }
}

/// The decimal a token denotes: an optional `-`, one or more digits, and
/// optionally a dot followed by one or more digits. `None` when the token is
/// not of that shape or its digits do not fit the representation.
pub open spec fn spec_parse_decimal(s: Seq<char>) -> Option<Decimal> {
    let neg = s.len() > 0 && s[0] == '-';
    let b = if neg {
        s.subrange(1, s.len() as int)
    } else {
        s
    };
    if body_ok(b) && digits_to_nat(body_digits(b)) <= u128::MAX && body_scale(b) <= u32::MAX {
        Some(
            Decimal {
                negative: neg,
                mantissa: digits_to_nat(body_digits(b)) as u128,
                scale: body_scale(b) as u32,
            },
        )
    } else {
        None
    }
}

proof fn lemma_digits_concat(x: Seq<char>, y: Seq<char>)
    ensures
        digits_to_nat(x + y) == digits_to_nat(x) * pow10(y.len()) + digits_to_nat(y),
    decreases y.len(),
{
    if y.len() == 0 {
        assert(x + y =~= x);
        assert(pow10(0) == 1);
    } else {
        lemma_digits_concat(x, y.drop_last());
        assert((x + y).drop_last() =~= x + y.drop_last());
        assert((x + y).last() == y.last());
        assert(digits_to_nat(x + y) == 10 * digits_to_nat(x + y.drop_last()) + digit_val(
            y.last(),
        ));
        assert(pow10(y.len()) == 10 * pow10((y.len() - 1) as nat));
        assert(10 * (digits_to_nat(x) * pow10((y.len() - 1) as nat)) == digits_to_nat(x)
            * (10 * pow10((y.len() - 1) as nat))) by (nonlinear_arith);
    }
}

/// If no dot occurs in `[i, j)` and either `j` is the end or holds a dot,
/// then `j` is the first dot position from `i`.
proof fn lemma_first_dot_is(s: Seq<char>, i: int, j: int)
    requires
        0 <= i <= j <= s.len(),
        forall|k: int| i <= k < j ==> #[trigger] s[k] != '.',
        j == s.len() || s[j] == '.',
    ensures
        first_dot_from(s, i) == j,
    decreases j - i,
{
    if i < j {
        lemma_first_dot_is(s, i + 1, j);
    }
}

/// The first dot from `i` never lies before `i`.
proof fn lemma_first_dot_min(s: Seq<char>, i: int)
    requires
        0 <= i <= s.len(),
    ensures
        first_dot_from(s, i) >= i,
        first_dot_from(s, i) <= s.len(),
    decreases s.len() - i,
{
    if i < s.len() && s[i] != '.' {
        lemma_first_dot_min(s, i + 1);
    }
}

/// If no dot occurs in `[i, j)`, the first dot from `i` is at `j` or later.
proof fn lemma_first_dot_lower(s: Seq<char>, i: int, j: int)
    requires
        0 <= i <= j <= s.len(),
        forall|k: int| i <= k < j ==> #[trigger] s[k] != '.',
    ensures
        j <= first_dot_from(s, i) <= s.len(),
    decreases j - i,
{
    if i < j {
        lemma_first_dot_lower(s, i + 1, j);
    } else {
        lemma_first_dot_min(s, i);
    }
}

/// Digits are never dots.
proof fn lemma_digits_not_dots(s: Seq<char>, i: int, j: int)
    requires
        all_digits(s, i, j),
    ensures
        forall|k: int| i <= k < j ==> #[trigger] s[k] != '.',
{
    assert forall|k: int| i <= k < j implies #[trigger] s[k] != '.' by {
        assert(is_digit_char(s[k]));
        assert('.' as u32 == 46);
    }
}

/// From `acc > (u128::MAX - d) / 10` it follows that `10 * acc + d`
/// overflows 128 bits.
pub proof fn lemma_acc_overflow(acc: nat, d: nat)
    requires
        d <= 9,
        acc > (u128::MAX - d) as nat / 10,
    ensures
        10 * acc + d > u128::MAX,
{
    lemma_fundamental_div_mod((u128::MAX - d) as int, 10);
}

/// A digit sequence is numerically at least its own prefix's value.
proof fn lemma_digits_prefix_lower(x: Seq<char>, y: Seq<char>)
    ensures
        digits_to_nat(x + y) >= digits_to_nat(x),
{
    lemma_digits_concat(x, y);
    lemma_pow10_positive(y.len());
    assert(digits_to_nat(x) * pow10(y.len()) >= digits_to_nat(x) * 1) by (nonlinear_arith)
        requires pow10(y.len()) >= 1,
    ;
}

/// Whether position `i` of `b` holds an ASCII digit.
fn is_digit_at(b: &str, i: usize) -> (r: bool)
    requires
        i < b@.len(),
    ensures
        r == is_digit_char(b@[i as int]),
{
    let c: char = b.get_char(i);
    let v: u32 = c as u32;
    48 <= v && v <= 57
}

/// Mantissa and scale read from a well-formed decimal body, when they fit
/// the representation.
pub open spec fn spec_parse_body(b: Seq<char>) -> Option<(u128, u32)> {
    if body_ok(b) && digits_to_nat(body_digits(b)) <= u128::MAX && body_scale(b) <= u32::MAX {
        Some((digits_to_nat(body_digits(b)) as u128, body_scale(b) as u32))
    } else {
        None
    }
}

/// Scans the digits-dot-digits body of a decimal token.
#[verifier::rlimit(60)]
fn parse_body(b: &str) -> (r: Option<(u128, u32)>)
    ensures
        r == spec_parse_body(b@),
{
    let m: usize = b.unicode_len();
    let mut i: usize = 0;
    let mut acc: u128 = 0;
    while i < m && is_digit_at(b, i)
        invariant
            i <= m == b@.len(),
            all_digits(b@, 0, i as int),
            acc as nat == digits_to_nat(b@.subrange(0, i as int)),
        decreases m - i,
    {
        let c: char = b.get_char(i);
        let d: u32 = (c as u32) - 48;
        if acc > (u128::MAX - d as u128) / 10 {
            proof {
                let bb = b@;
                let k = first_dot_from(bb, 0);
                if body_ok(bb) {
                    lemma_digits_not_dots(bb, 0, i as int);
                    lemma_first_dot_lower(bb, 0, i + 1);
                    // the digit at i sits before the dot, so the whole digit
                    // string extends the processed prefix
                    let p = bb.subrange(0, i as int);
                    let rest = if k < bb.len() {
                        bb.subrange(i + 1, k) + bb.subrange(k + 1, bb.len() as int)
                    } else {
                        bb.subrange(i + 1, bb.len() as int)
                    };
                    assert(body_digits(bb) =~= p.push(bb[i as int]) + rest);
                    assert(p.push(bb[i as int]).drop_last() =~= p);
                    assert(digits_to_nat(p.push(bb[i as int])) == 10 * acc + d);
                    lemma_acc_overflow(acc as nat, d as nat);
                    lemma_digits_prefix_lower(p.push(bb[i as int]), rest);
                    assert(digits_to_nat(body_digits(bb)) > u128::MAX);
                }
            }
            return None;
        }
        acc = acc * 10 + d as u128;
        i = i + 1;
        proof {
            assert(b@.subrange(0, i as int) =~= b@.subrange(0, i - 1).push(b@[i - 1]));
            assert(b@.subrange(0, i as int).drop_last() =~= b@.subrange(0, i - 1));
        }
    }
    if i == 0 {
        proof {
            let bb = b@;
            if bb.len() > 0 && bb[0] != '.' {
                lemma_first_dot_lower(bb, 0, 1);
                assert(!is_digit_char(bb[0]));
            }
        }
        return None;
    }
    if i == m {
        proof {
            lemma_digits_not_dots(b@, 0, m as int);
            lemma_first_dot_is(b@, 0, m as int);
            assert(b@.subrange(0, m as int) =~= b@);
        }
        return Some((acc, 0));
    }
    // a non-digit stopped the scan
    let c: char = b.get_char(i);
    if c != '.' {
        proof {
            let bb = b@;
            if body_ok(bb) {
                lemma_digits_not_dots(bb, 0, i as int);
                lemma_first_dot_lower(bb, 0, i + 1);
                assert(!is_digit_char(bb[i as int]));
            }
        }
        return None;
    }
    let dot: usize = i;
    proof {
        lemma_digits_not_dots(b@, 0, dot as int);
        lemma_first_dot_is(b@, 0, dot as int);
    }
    i = i + 1;
    if i == m {
        return None;
    }
    while i < m && is_digit_at(b, i)
        invariant
            dot < i <= m == b@.len(),
            b@[dot as int] == '.',
            first_dot_from(b@, 0) == dot,
            all_digits(b@, 0, dot as int),
            all_digits(b@, dot + 1, i as int),
            acc as nat == digits_to_nat(
                b@.subrange(0, dot as int) + b@.subrange(dot + 1, i as int),
            ),
        decreases m - i,
    {
        let c2: char = b.get_char(i);
        let d: u32 = (c2 as u32) - 48;
        if acc > (u128::MAX - d as u128) / 10 {
            proof {
                let bb = b@;
                if body_ok(bb) {
                    let p = bb.subrange(0, dot as int) + bb.subrange(dot + 1, i as int);
                    let rest = bb.subrange(i + 1, bb.len() as int);
                    assert(body_digits(bb) =~= p.push(bb[i as int]) + rest);
                    assert(p.push(bb[i as int]).drop_last() =~= p);
                    assert(digits_to_nat(p.push(bb[i as int])) == 10 * acc + d);
                    lemma_acc_overflow(acc as nat, d as nat);
                    lemma_digits_prefix_lower(p.push(bb[i as int]), rest);
                    assert(digits_to_nat(body_digits(bb)) > u128::MAX);
                }
            }
            return None;
        }
        acc = acc * 10 + d as u128;
        i = i + 1;
        proof {
            let p = b@.subrange(0, dot as int) + b@.subrange(dot + 1, i - 1);
            assert(b@.subrange(0, dot as int) + b@.subrange(dot + 1, i as int) =~= p.push(
                b@[i - 1],
            ));
            assert(p.push(b@[i - 1]).drop_last() =~= p);
        }
    }
    if i < m {
        proof {
            assert(!is_digit_char(b@[i as int]));
        }
        return None;
    }
    let scale_usize: usize = m - dot - 1;
    if scale_usize > u32::MAX as usize {
        return None;
    }
    proof {
        assert(body_digits(b@) =~= b@.subrange(0, dot as int) + b@.subrange(
            dot + 1,
            b@.len() as int,
        ));
    }
    Some((acc, scale_usize as u32))
}

/// Parses a decimal token: an optional `-`, one or more digits, and
/// optionally a dot followed by one or more digits. Returns `None` for any
/// other shape, and for numbers whose digits exceed the 128-bit mantissa.
pub fn parse_decimal(s: &str) -> (r: Option<Decimal>)
    ensures
        r == spec_parse_decimal(s@),
{
    let n: usize = s.unicode_len();
    let neg: bool = n > 0 && s.get_char(0) == '-';
    let b: &str = if neg {
        s.substring_char(1, n)
    } else {
        s
    };
    proof {
        if neg {
            assert(b@ =~= s@.subrange(1, s@.len() as int));
        }
    }
    match parse_body(b) {
        Some((mantissa, scale)) => Some(Decimal { negative: neg, mantissa, scale }),
        None => None,
    }
}


/// `10^e` as a 128-bit integer; defined for exponents up to 38, the largest
/// power of ten that fits.
pub fn pow10_u128(e: u32) -> (r: u128)
    requires
        e <= 38,
    ensures
        r as nat == pow10(e as nat),
{
    proof {
        lemma_pow10_38_fits();
    }
    let mut acc: u128 = 1;
    let mut i: u32 = 0;
    while i < e
        invariant
            i <= e <= 38,
            acc as nat == pow10(i as nat),
        decreases e - i,
    {
        proof {
            lemma_pow10_38_fits();
            lemma_pow10_mono((i + 1) as nat, 38);
            assert(pow10((i + 1) as nat) == 10 * pow10(i as nat));
        }
        acc = acc * 10;
        i = i + 1;
    }
    acc
}

} // verus!
