//! Delegated intent extraction: mapping the completion service's reply onto
//! an [`Intent`].
//!
//! The service is instructed to answer with exactly one of two canonical
//! object shapes. A reply outside the accepted grammar, or without an
//! `action` member, is a malformed response. An `action` of `"send_eth"`
//! yields a transfer; a missing or non-numeric `amount` counts as zero and a
//! missing or non-string `recipient` as the empty string, leaving rejection
//! to dispatch. Any other `action` carries no intent and is never an error.
//! When an object repeats a key, the first member wins; JSON leaves the
//! choice open, and taking the first makes lookup independent of what
//! follows.

use vstd::prelude::*;
use crate::decimal::Decimal;
use crate::intent::{ExtractError, Intent};
use crate::json::{members_view, parse_object, spec_object, JsonValue, SpecJson};

verus! {

/// The value of the first member with the given key, if any.
pub open spec fn find_key(ms: Seq<(Seq<char>, SpecJson)>, key: Seq<char>) -> Option<SpecJson>
    decreases ms.len(),
{
    if ms.len() == 0 {
        None
    } else if ms[0].0 == key {
        Some(ms[0].1)
    } else {
        find_key(ms.drop_first(), key)
    }
}

/// The amount carried by an intent object: its first `amount` member when
/// that member is a number, zero otherwise.
pub open spec fn spec_amount_of(ms: Seq<(Seq<char>, SpecJson)>) -> Decimal {
    match find_key(ms, "amount"@) {
        Some(SpecJson::SNum(d)) => d,
        _ => Decimal { negative: false, mantissa: 0, scale: 0 },
    }
}

/// The recipient carried by an intent object: its first `recipient` member
/// when that member is a string, the empty string otherwise.
pub open spec fn spec_recipient_of(ms: Seq<(Seq<char>, SpecJson)>) -> Seq<char> {
    match find_key(ms, "recipient"@) {
        Some(SpecJson::SStr(x)) => x,
        _ => Seq::empty(),
    }
}

/// What reading a completion reply yields: a malformed response when the
/// text lies outside the grammar or lacks an `action` member; a transfer
/// when the action is `"send_eth"`; no intent for every other action.
pub open spec fn spec_completion_intent(s: Seq<char>, r: Result<Intent, ExtractError>) -> bool {
    match spec_object(s) {
        None => r == Result::<Intent, ExtractError>::Err(ExtractError::MalformedResponse),
        Some(ms) => match find_key(ms, "action"@) {
            None => r == Result::<Intent, ExtractError>::Err(ExtractError::MalformedResponse),
            Some(a) => {
                if a == SpecJson::SStr("send_eth"@) {
                    match r {
                        Ok(Intent::Transfer { amount, recipient }) => {
                            &&& amount == spec_amount_of(ms)
                            &&& recipient@ == spec_recipient_of(ms)
                        },
                        _ => false,
                    }
                } else {
                    r == Result::<Intent, ExtractError>::Ok(Intent::NoAction)
                }
            },
        },
    }
}

/// The fixed system instruction that constrains the completion service to
/// the two canonical reply shapes this module reads.
pub fn intent_instruction() -> (r: String)
    ensures
        r@ == (
        "You are an intent extraction engine. If the user wants to send ETH, respond ONLY with this JSON: {\"action\":\"send_eth\",\"amount\":<number>,\"recipient\":\"<address>\"}. For all other requests, respond ONLY with {\"action\":\"none\"}. Do not explain, do not apologize, do not add any text. Only output valid JSON.")@,
{
    "You are an intent extraction engine. If the user wants to send ETH, respond ONLY with this JSON: {\"action\":\"send_eth\",\"amount\":<number>,\"recipient\":\"<address>\"}. For all other requests, respond ONLY with {\"action\":\"none\"}. Do not explain, do not apologize, do not add any text. Only output valid JSON.".to_owned()
}

/// Compares two strings character for character.
fn str_eq(a: &str, b: &str) -> (r: bool)
    ensures
        r == (a@ == b@),
{
    let la: usize = a.unicode_len();
    let lb: usize = b.unicode_len();
    if la != lb {
        return false;
    }
    let mut i: usize = 0;
    while i < la
        invariant
            i <= la == a@.len() == b@.len(),
            forall|k: int| 0 <= k < i ==> a@[k] == b@[k],
        decreases la - i,
    {
        if a.get_char(i) != b.get_char(i) {
            return false;
        }
        i = i + 1;
    }
    proof {
        assert(a@ =~= b@);
    }
    true
}

/// Finds the first member with the given key.
fn find_index(ms: &Vec<(String, JsonValue)>, key: &str) -> (r: Option<usize>)
    ensures
        match r {
            Some(ix) => ix < ms@.len() && find_key(members_view(ms@), key@) == Some(
                ms@[ix as int].1@,
            ),
            None => find_key(members_view(ms@), key@) is None,
        },
{
    let n: usize = ms.len();
    let mut i: usize = 0;
    proof {
        assert(members_view(ms@).skip(0) =~= members_view(ms@));
    }
    while i < n
        invariant
            i <= n == ms@.len(),
            find_key(members_view(ms@), key@) == find_key(
                members_view(ms@).skip(i as int),
                key@,
            ),
        decreases n - i,
    {
        if str_eq(ms[i].0.as_str(), key) {
            proof {
                assert(members_view(ms@).skip(i as int)[0] == (ms@[i as int].0@, ms@[
                    i as int
                ].1@));
            }
            return Some(i);
        }
        i = i + 1;
        proof {
            assert(members_view(ms@).skip(i - 1).drop_first() =~= members_view(ms@).skip(
                i as int,
            ));
            assert(members_view(ms@).skip(i - 1)[0] == (ms@[i - 1].0@, ms@[i - 1].1@));
        }
    }
    proof {
        assert(members_view(ms@).skip(i as int) =~= Seq::<(Seq<char>, SpecJson)>::empty());
    }
    None
}

/// Maps a completion reply onto an intent; see the module head for the
/// tie-break rules this implements.
pub fn parse_completion(resp: &str) -> (r: Result<Intent, ExtractError>)
    ensures
        spec_completion_intent(resp@, r),
{
    let ms: Vec<(String, JsonValue)> = match parse_object(resp) {
        Some(ms) => ms,
        None => {
            return Err(ExtractError::MalformedResponse);
        },
    };
    let action_ix: usize = match find_index(&ms, "action") {
        Some(ix) => ix,
        None => {
            return Err(ExtractError::MalformedResponse);
        },
    };
    let is_send: bool = match &ms[action_ix].1 {
        JsonValue::Str(a) => str_eq(a.as_str(), "send_eth"),
        _ => false,
    };
    if !is_send {
        return Ok(Intent::NoAction);
    }
    let amount: Decimal = match find_index(&ms, "amount") {
        Some(ix) => match &ms[ix].1 {
            JsonValue::Num(d) => *d,
            _ => Decimal::zero(),
        },
        None => Decimal::zero(),
    };
    let recipient: String = match find_index(&ms, "recipient") {
        Some(ix) => match &ms[ix].1 {
            JsonValue::Str(x) => x.clone(),
            _ => String::new(),
        },
        None => String::new(),
    };
    Ok(Intent::Transfer { amount, recipient })
}

/// Delegated extraction from the outcome of the completion call: no reply
/// means the service was unavailable; a reply is read as an intent object.
pub fn extract_delegated(response: Option<&str>) -> (r: Result<Intent, ExtractError>)
    ensures
        match response {
            None => r == Result::<Intent, ExtractError>::Err(ExtractError::ServiceUnavailable),
            Some(t) => spec_completion_intent(t@, r),
        },
{
    match response {
        None => Err(ExtractError::ServiceUnavailable),
        Some(t) => parse_completion(t),
    }
}

} // verus!
