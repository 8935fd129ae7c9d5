//! Rule-based intent extraction: a fixed, case-insensitive, whitespace
//! tokenized sentence template.
//!
//! The only recognized sentence is
//! `send <amount> eth from my address to <recipient>`.
//! Any deviation in word count or keyword position means the sentence carries
//! no transfer intent; it is never an error. An amount token that is not a
//! decimal number is substituted with zero rather than rejected here:
//! dispatch is the single authority on bad values.

use vstd::prelude::*;
use crate::decimal::{spec_parse_decimal, parse_decimal, Decimal};
use crate::intent::{ExtractError, Intent};

verus! {

/// The whitespace characters that separate template tokens.
pub open spec fn is_space(c: char) -> bool {
    c == ' ' || c == '\t' || c == '\n' || c == '\r'
}

/// The position just past the token starting at `i`: the first space at or
/// after `i`, or the end of the text.
pub open spec fn token_end(s: Seq<char>, i: int) -> int
    decreases s.len() - i,
{
    if i < 0 || i >= s.len() {
        s.len() as int
    } else if is_space(s[i]) {
        i
    } else {
        token_end(s, i + 1)
    }
}

proof fn lemma_token_end_bounds(s: Seq<char>, i: int)
    requires
        0 <= i <= s.len(),
    ensures
        i <= token_end(s, i) <= s.len(),
    decreases s.len() - i,
{
    if i < s.len() && !is_space(s[i]) {
        lemma_token_end_bounds(s, i + 1);
    }
}

/// The whitespace-separated tokens of `s`, from position `i` on.
pub open spec fn spec_tokens(s: Seq<char>, i: int) -> Seq<Seq<char>>
    decreases s.len() - i,
    when 0 <= i <= s.len()
    via spec_tokens_decreases
{
    if i >= s.len() {
        Seq::empty()
    } else if is_space(s[i]) {
        spec_tokens(s, i + 1)
    } else {
        seq![s.subrange(i, token_end(s, i))] + spec_tokens(s, token_end(s, i))
    }
}

#[via_fn]
proof fn spec_tokens_decreases(s: Seq<char>, i: int) {
    if 0 <= i < s.len() && !is_space(s[i]) {
        lemma_token_end_bounds(s, i + 1);
    }
}

/// The code point of a character with ASCII upper case folded to lower case.
pub open spec fn lower_cp(c: char) -> u32 {
    if 65 <= c as u32 && c as u32 <= 90 {
        (c as u32 + 32) as u32
    } else {
        c as u32
    }
}

/// Character sequences equal up to ASCII case.
pub open spec fn eq_ignore_case(a: Seq<char>, b: Seq<char>) -> bool {
    a.len() == b.len() && (forall|i: int|
        0 <= i < a.len() ==> lower_cp(a[i]) == lower_cp(#[trigger] b[i]))
}

/// Whether a token list fits the transfer template: exactly eight tokens with
/// the six keywords in place; the amount and recipient tokens are free.
pub open spec fn spec_template_match(toks: Seq<Seq<char>>) -> bool {
    &&& toks.len() == 8
    &&& eq_ignore_case(toks[0], "send"@)
    &&& eq_ignore_case(toks[2], "eth"@)
    &&& eq_ignore_case(toks[3], "from"@)
    &&& eq_ignore_case(toks[4], "my"@)
    &&& eq_ignore_case(toks[5], "address"@)
    &&& eq_ignore_case(toks[6], "to"@)
}

/// The amount a template's amount token denotes; an unreadable token counts
/// as zero, leaving rejection to dispatch.
pub open spec fn spec_rule_amount(tok: Seq<char>) -> Decimal {
    match spec_parse_decimal(tok) {
        Some(d) => d,
        None => Decimal { negative: false, mantissa: 0, scale: 0 },
    }
}

/// What rule-based extraction yields on `s`, phrased over a result intent.
pub open spec fn spec_rule_intent(s: Seq<char>, r: Intent) -> bool {
    let toks = spec_tokens(s, 0);
    if spec_template_match(toks) {
        match r {
            Intent::Transfer { amount, recipient } => {
                &&& amount == spec_rule_amount(toks[1])
                &&& recipient@ == toks[7]
            },
            Intent::NoAction => false,
        }
    } else {
        r is NoAction
    }
}

/// Whether position `i` of `s` holds a token separator.
fn is_space_at(s: &str, i: usize) -> (r: bool)
    requires
        i < s@.len(),
    ensures
        r == is_space(s@[i as int]),
{
    let c: char = s.get_char(i);
    c == ' ' || c == '\t' || c == '\n' || c == '\r'
}

/// Finds the end of the token starting at `i`.
fn token_end_at(s: &str, n: usize, i: usize) -> (r: usize)
    requires
        i <= n == s@.len(),
    ensures
        r == token_end(s@, i as int),
        i <= r <= n,
{
    let mut j: usize = i;
    while j < n && !is_space_at(s, j)
        invariant
            i <= j <= n == s@.len(),
            token_end(s@, i as int) == token_end(s@, j as int),
        decreases n - j,
    {
        j = j + 1;
    }
    j
}

/// Splits text into whitespace-separated tokens.
fn split_tokens(s: &str) -> (r: Vec<String>)
    ensures
        r@.map_values(|t: String| t@) == spec_tokens(s@, 0),
{
    let n: usize = s.unicode_len();
    let mut acc: Vec<String> = Vec::new();
    let mut i: usize = 0;
    while i < n
        invariant
            i <= n == s@.len(),
            spec_tokens(s@, 0) == acc@.map_values(|t: String| t@) + spec_tokens(s@, i as int),
        decreases n - i,
    {
        if is_space_at(s, i) {
            i = i + 1;
        } else {
            let j: usize = token_end_at(s, n, i);
            proof {
                lemma_token_end_bounds(s@, i + 1);
                assert(token_end(s@, i as int) == token_end(s@, i + 1));
            }
            let tok: String = s.substring_char(i, j).to_owned();
            let ghost before = acc@.map_values(|t: String| t@);
            acc.push(tok);
            proof {
                assert(acc@.map_values(|t: String| t@) =~= before.push(tok@));
                assert(seq![s@.subrange(i as int, j as int)] + spec_tokens(s@, j as int)
                    =~= spec_tokens(s@, i as int));
                assert(before.push(tok@) + spec_tokens(s@, j as int) =~= before + (seq![
                    s@.subrange(i as int, j as int),
                ] + spec_tokens(s@, j as int)));
            }
            i = j;
        }
    }
    proof {
        assert(acc@.map_values(|t: String| t@) + spec_tokens(s@, i as int) =~= acc@.map_values(
            |t: String| t@,
        ));
    }
    acc
}

/// The code point of `c` with ASCII upper case folded to lower case.
fn lower_of(c: char) -> (r: u32)
    ensures
        r == lower_cp(c),
{
    let v: u32 = c as u32;
    if 65 <= v && v <= 90 {
        v + 32
    } else {
        v
    }
}

/// Compares two strings for equality up to ASCII case.
fn eq_ignore_case_str(a: &str, b: &str) -> (r: bool)
    ensures
        r == eq_ignore_case(a@, b@),
{
    let la: usize = a.unicode_len();
    let lb: usize = b.unicode_len();
    if la != lb {
        return false;
    }
    let mut i: usize = 0;
    while i < la
        invariant
            i <= la == a@.len() == b@.len(),
            forall|k: int| 0 <= k < i ==> lower_cp(a@[k]) == lower_cp(#[trigger] b@[k]),
        decreases la - i,
    {
        let ca: char = a.get_char(i);
        let cb: char = b.get_char(i);
        if lower_of(ca) != lower_of(cb) {
            return false;
        }
        i = i + 1;
    }
    true
}

/// Rule-based extraction: recognizes only the fixed transfer template; every
/// other text carries no intent and is never an error.
pub fn extract_rule_based(text: &str) -> (r: Result<Intent, ExtractError>)
    ensures
        r is Ok,
        spec_rule_intent(text@, r->Ok_0),
{
    let toks: Vec<String> = split_tokens(text);
    let ghost stoks = spec_tokens(text@, 0);
    proof {
        assert(stoks.len() == toks@.len());
    }
    if toks.len() != 8 {
        return Ok(Intent::NoAction);
    }
    proof {
        assert forall|k: int| 0 <= k < 8 implies #[trigger] stoks[k] == toks@[k]@ by {
            assert(stoks[k] == toks@.map_values(|t: String| t@)[k]);
        }
    }
    let ok: bool = eq_ignore_case_str(toks[0].as_str(), "send") && eq_ignore_case_str(
        toks[2].as_str(),
        "eth",
    ) && eq_ignore_case_str(toks[3].as_str(), "from") && eq_ignore_case_str(
        toks[4].as_str(),
        "my",
    ) && eq_ignore_case_str(toks[5].as_str(), "address") && eq_ignore_case_str(
        toks[6].as_str(),
        "to",
    );
    if !ok {
        return Ok(Intent::NoAction);
    }
    let amount: Decimal = match parse_decimal(toks[1].as_str()) {
        Some(d) => d,
        None => Decimal::zero(),
    };
    let recipient: String = toks[7].clone();
    Ok(Intent::Transfer { amount, recipient })
}

} // verus!
