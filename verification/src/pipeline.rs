//! The whole per-command pipeline: extraction, dispatch, rendering.
//!
//! The outside world enters only as plain values: whether a node connection
//! stood, what came back for a submission, and — for the delegated strategy
//! — the completion service's reply. The conversational fallback reply is
//! likewise handed in by the caller.

use vstd::prelude::*;
use crate::decimal::Decimal;
use crate::delegate::{extract_delegated, find_key, spec_amount_of, spec_recipient_of};
use crate::dispatch::{dispatch, spec_valid_address, NonceSequence, SignerContext, SubmitOutcome};
use crate::extract::{
    extract_rule_based, spec_rule_amount, spec_template_match, spec_tokens,
};
use crate::intent::Intent;
use crate::json::{spec_object, SpecJson};
use crate::respond::{render_dispatch, render_extract_error};

verus! {

/// How a transfer with the given amount and recipient must answer, and how
/// the nonce counter must move, given the outside outcomes.
pub open spec fn spec_transfer_response(
    amount: Decimal,
    recipient: Seq<char>,
    next0: u64,
    next1: u64,
    connected: bool,
    outcome: SubmitOutcome,
    r: Seq<char>,
) -> bool {
    let convertible = amount.is_positive() && amount.spec_minor_units() <= u128::MAX;
    &&& (!spec_valid_address(recipient) ==> r == "Invalid recipient address."@ && next1
        == next0)
    &&& (spec_valid_address(recipient) && !convertible ==> r == "Invalid amount."@ && next1
        == next0)
    &&& (spec_valid_address(recipient) && convertible && !connected ==> r
        == "Provider unavailable."@ && next1 == next0)
    &&& (spec_valid_address(recipient) && convertible && connected ==> next1 == next0 + 1
        && (match outcome {
        SubmitOutcome::Accepted(h) => r == "Transaction sent! Hash: "@ + h@,
        SubmitOutcome::Rejected(m) => r == "Submission failed: "@ + m@,
        SubmitOutcome::NotSigned => r == "Signing failed."@,
    }))
}

/// Answers one command with the rule-based extractor: a text outside the
/// transfer template returns the caller's fallback reply untouched and
/// moves nothing; a transfer-shaped text runs the dispatch pipeline.
pub fn respond_rule_based(
    text: &str,
    ctx: &SignerContext,
    seq: &mut NonceSequence,
    connected: bool,
    outcome: SubmitOutcome,
    fallback: &str,
) -> (r: String)
    requires
        old(seq).next < u64::MAX,
    ensures
        ({
            let toks = spec_tokens(text@, 0);
            &&& (!spec_template_match(toks) ==> r@ == fallback@ && final(seq).next
                == old(seq).next)
            &&& (spec_template_match(toks) ==> spec_transfer_response(
                spec_rule_amount(toks[1]),
                toks[7],
                old(seq).next,
                final(seq).next,
                connected,
                outcome,
                r@,
            ))
        }),
{
    let intent: Intent = match extract_rule_based(text) {
        Ok(i) => i,
        Err(e) => {
            return render_extract_error(e);
        },
    };
    match intent {
        Intent::NoAction => fallback.to_owned(),
        Intent::Transfer { amount, recipient } => {
            let res: Result<String, crate::intent::DispatchError> = dispatch(
                &amount,
                recipient.as_str(),
                ctx,
                seq,
                connected,
                outcome,
            );
            render_dispatch(res)
        },
    }
}

/// Answers one command with the delegated extractor, given the completion
/// service's outcome: no reply reports the service unavailable; a reply
/// outside the canonical shapes, or without an action, reports a malformed
/// response; an action other than `send_eth` returns the caller's fallback
/// reply; a `send_eth` action runs the dispatch pipeline. Only a dispatch
/// that reaches submission moves the nonce counter.
pub fn respond_delegated(
    response: Option<&str>,
    ctx: &SignerContext,
    seq: &mut NonceSequence,
    connected: bool,
    outcome: SubmitOutcome,
    fallback: &str,
) -> (r: String)
    requires
        old(seq).next < u64::MAX,
    ensures
        response is None ==> r@ == "Service unavailable."@ && final(seq).next == old(seq).next,
        response matches Some(t) ==> match spec_object(t@) {
            None => r@ == "Malformed response from the intent service."@ && final(seq).next
                == old(seq).next,
            Some(ms) => match find_key(ms, "action"@) {
                None => r@ == "Malformed response from the intent service."@
                    && final(seq).next == old(seq).next,
                Some(a) => {
                    if a == SpecJson::SStr("send_eth"@) {
                        spec_transfer_response(
                            spec_amount_of(ms),
                            spec_recipient_of(ms),
                            old(seq).next,
                            final(seq).next,
                            connected,
                            outcome,
                            r@,
                        )
                    } else {
                        r@ == fallback@ && final(seq).next == old(seq).next
                    }
                },
            },
        },
{
    let intent: Intent = match extract_delegated(response) {
        Ok(i) => i,
        Err(e) => {
            return render_extract_error(e);
        },
    };
    match intent {
        Intent::NoAction => fallback.to_owned(),
        Intent::Transfer { amount, recipient } => {
            let res: Result<String, crate::intent::DispatchError> = dispatch(
                &amount,
                recipient.as_str(),
                ctx,
                seq,
                connected,
                outcome,
            );
            render_dispatch(res)
        },
    }
}

} // verus!
