use eth_agent::decimal::Decimal;
use eth_agent::dispatch::{
    complete_submission, dispatch, is_valid_address, validate_transfer, NonceSequence,
    SignerContext, SubmitOutcome,
};
use eth_agent::intent::DispatchError;
use eth_agent::pipeline::{respond_delegated, respond_rule_based};

const ADDR: &str = "0xAbC0000000000000000000000000000000000123";

fn ctx() -> SignerContext {
    SignerContext::new(
        "0x00000000000000000000000000000000000000aa".to_string(),
        31337,
        vec![7u8; 32],
    )
}

fn dec(negative: bool, mantissa: u128, scale: u32) -> Decimal {
    Decimal { negative, mantissa, scale }
}

#[test]
fn address_syntax() {
    assert!(is_valid_address(ADDR));
    assert!(is_valid_address("0x0123456789abcdefABCDEF0123456789abcdefAB"));
    assert!(!is_valid_address("not-an-address"));
    assert!(!is_valid_address("0xAbC000000000000000000000000000000000012")); // 39 digits
    assert!(!is_valid_address("1xAbC0000000000000000000000000000000000123"));
    assert!(!is_valid_address("0xAbG0000000000000000000000000000000000123"));
    assert!(!is_valid_address(""));
}

#[test]
fn validation_rejects_bad_recipient_first() {
    // even with a bad amount, the recipient error wins
    let r = validate_transfer(&dec(true, 0, 0), "not-an-address");
    assert_eq!(r.unwrap_err(), DispatchError::InvalidRecipient);
}

#[test]
fn validation_rejects_non_positive_amounts() {
    let zero = validate_transfer(&dec(false, 0, 0), ADDR);
    assert_eq!(zero.unwrap_err(), DispatchError::InvalidAmount);
    let negative = validate_transfer(&dec(true, 15, 1), ADDR);
    assert_eq!(negative.unwrap_err(), DispatchError::InvalidAmount);
    let overflow = validate_transfer(&dec(false, u128::MAX, 0), ADDR);
    assert_eq!(overflow.unwrap_err(), DispatchError::InvalidAmount);
}

#[test]
fn validation_accepts_and_converts() {
    let v = validate_transfer(&dec(false, 15, 1), ADDR).unwrap();
    assert_eq!(v.recipient, ADDR);
    assert_eq!(v.value, 1_500_000_000_000_000_000u128);
}

#[test]
fn invalid_inputs_consume_no_nonce() {
    let c = ctx();
    let mut seq = NonceSequence::new(5);
    let bad_rcpt = dispatch(
        &dec(false, 1, 0),
        "not-an-address",
        &c,
        &mut seq,
        true,
        SubmitOutcome::Accepted("0xhash".to_string()),
    );
    assert_eq!(bad_rcpt.unwrap_err(), DispatchError::InvalidRecipient);
    assert_eq!(seq.next, 5);
    let bad_amount = dispatch(
        &dec(false, 0, 0),
        ADDR,
        &c,
        &mut seq,
        true,
        SubmitOutcome::Accepted("0xhash".to_string()),
    );
    assert_eq!(bad_amount.unwrap_err(), DispatchError::InvalidAmount);
    assert_eq!(seq.next, 5);
}

#[test]
fn no_connection_consumes_no_nonce() {
    let c = ctx();
    let mut seq = NonceSequence::new(3);
    let r = dispatch(
        &dec(false, 1, 0),
        ADDR,
        &c,
        &mut seq,
        false,
        SubmitOutcome::Accepted("0xhash".to_string()),
    );
    assert_eq!(r.unwrap_err(), DispatchError::ProviderUnavailable);
    assert_eq!(seq.next, 3);
}

#[test]
fn successful_dispatch_consumes_one_nonce() {
    let c = ctx();
    let mut seq = NonceSequence::new(9);
    let r = dispatch(
        &dec(false, 1, 0),
        ADDR,
        &c,
        &mut seq,
        true,
        SubmitOutcome::Accepted("0xfeed".to_string()),
    );
    assert_eq!(r.unwrap(), "0xfeed");
    assert_eq!(seq.next, 10);
}

#[test]
fn failed_submission_still_consumes_the_nonce() {
    let c = ctx();
    let mut seq = NonceSequence::new(2);
    let r = dispatch(
        &dec(false, 1, 0),
        ADDR,
        &c,
        &mut seq,
        true,
        SubmitOutcome::Rejected("gas too low".to_string()),
    );
    assert_eq!(
        r.unwrap_err(),
        DispatchError::SubmissionFailed("gas too low".to_string())
    );
    assert_eq!(seq.next, 3);
}

#[test]
fn submission_outcomes_map_exactly() {
    assert_eq!(
        complete_submission(SubmitOutcome::Accepted("0xab".to_string())).unwrap(),
        "0xab"
    );
    assert_eq!(
        complete_submission(SubmitOutcome::NotSigned).unwrap_err(),
        DispatchError::SigningFailed
    );
    assert_eq!(
        complete_submission(SubmitOutcome::Rejected("busy".to_string())).unwrap_err(),
        DispatchError::SubmissionFailed("busy".to_string())
    );
}

#[test]
fn nonce_run_is_contiguous_whatever_the_order() {
    let mut seq = NonceSequence::new(7);
    let ns = seq.reserve_run(5);
    assert_eq!(ns, vec![7, 8, 9, 10, 11]);
    assert_eq!(seq.next, 12);
    // no repeats, no gaps
    for w in ns.windows(2) {
        assert_eq!(w[1], w[0] + 1);
    }
}

#[test]
fn transfer_command_reports_the_hash() {
    let c = ctx();
    let mut seq = NonceSequence::new(0);
    let text = format!("send 1 eth from my address to {}", ADDR);
    let r = respond_rule_based(
        &text,
        &c,
        &mut seq,
        true,
        SubmitOutcome::Accepted("0x4242".to_string()),
        "never used",
    );
    assert_eq!(r, "Transaction sent! Hash: 0x4242");
    assert!(r.contains("Transaction sent! Hash: 0x"));
    assert_eq!(seq.next, 1);
}

#[test]
fn off_template_command_returns_fallback() {
    let c = ctx();
    let mut seq = NonceSequence::new(4);
    let r = respond_rule_based(
        "what's the weather",
        &c,
        &mut seq,
        true,
        SubmitOutcome::Accepted("0xnever".to_string()),
        "Cloudy with a chance of blocks.",
    );
    assert_eq!(r, "Cloudy with a chance of blocks.");
    assert_eq!(seq.next, 4);
}

#[test]
fn bad_recipient_command_reports_and_consumes_nothing() {
    let c = ctx();
    let mut seq = NonceSequence::new(6);
    let r = respond_rule_based(
        "send 1 eth from my address to not-an-address",
        &c,
        &mut seq,
        true,
        SubmitOutcome::Accepted("0xnever".to_string()),
        "never used",
    );
    assert_eq!(r, "Invalid recipient address.");
    assert_eq!(seq.next, 6);
}

#[test]
fn delegated_pipeline_end_to_end() {
    let c = ctx();
    let mut seq = NonceSequence::new(1);
    let resp = format!(
        "{{\"action\":\"send_eth\",\"amount\":2,\"recipient\":\"{}\"}}",
        ADDR
    );
    let r = respond_delegated(
        Some(&resp),
        &c,
        &mut seq,
        true,
        SubmitOutcome::Accepted("0xbeef".to_string()),
        "never used",
    );
    assert_eq!(r, "Transaction sent! Hash: 0xbeef");
    assert_eq!(seq.next, 2);

    let none = respond_delegated(
        Some("{\"action\":\"none\"}"),
        &c,
        &mut seq,
        true,
        SubmitOutcome::Accepted("0xnever".to_string()),
        "Happy to chat!",
    );
    assert_eq!(none, "Happy to chat!");
    assert_eq!(seq.next, 2);

    let down = respond_delegated(
        None,
        &c,
        &mut seq,
        true,
        SubmitOutcome::Accepted("0xnever".to_string()),
        "never used",
    );
    assert_eq!(down, "Service unavailable.");

    let garbled = respond_delegated(
        Some("I will not answer in JSON today"),
        &c,
        &mut seq,
        true,
        SubmitOutcome::Accepted("0xnever".to_string()),
        "never used",
    );
    assert_eq!(garbled, "Malformed response from the intent service.");
    assert_eq!(seq.next, 2);
}
