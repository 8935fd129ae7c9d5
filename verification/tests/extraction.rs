use eth_agent::decimal::Decimal;
use eth_agent::delegate::{extract_delegated, parse_completion};
use eth_agent::extract::extract_rule_based;
use eth_agent::intent::{ExtractError, Intent};

const ADDR: &str = "0xAbC0000000000000000000000000000000000123";

fn transfer(negative: bool, mantissa: u128, scale: u32, recipient: &str) -> Intent {
    Intent::Transfer {
        amount: Decimal { negative, mantissa, scale },
        recipient: recipient.to_string(),
    }
}

#[test]
fn rule_based_recognizes_template() {
    let text = format!("send 1 eth from my address to {}", ADDR);
    assert_eq!(
        extract_rule_based(&text),
        Ok(transfer(false, 1, 0, ADDR))
    );
}

#[test]
fn rule_based_is_case_insensitive() {
    let text = format!("SEND 2.5 ETH From My ADDRESS tO {}", ADDR);
    assert_eq!(
        extract_rule_based(&text),
        Ok(transfer(false, 25, 1, ADDR))
    );
}

#[test]
fn rule_based_tolerates_extra_whitespace() {
    let text = format!("  send\t1 eth  from my address to\n{} ", ADDR);
    assert_eq!(
        extract_rule_based(&text),
        Ok(transfer(false, 1, 0, ADDR))
    );
}

#[test]
fn rule_based_yields_no_action_off_template() {
    assert_eq!(extract_rule_based("what's the weather"), Ok(Intent::NoAction));
    assert_eq!(extract_rule_based(""), Ok(Intent::NoAction));
    assert_eq!(
        extract_rule_based("send 1 eth from my address to a b"),
        Ok(Intent::NoAction)
    );
    assert_eq!(
        extract_rule_based("send 1 btc from my address to x"),
        Ok(Intent::NoAction)
    );
}

#[test]
fn rule_based_substitutes_zero_for_bad_amount() {
    let text = format!("send lots eth from my address to {}", ADDR);
    assert_eq!(
        extract_rule_based(&text),
        Ok(transfer(false, 0, 0, ADDR))
    );
}

#[test]
fn reparse_of_canonical_none_is_no_action() {
    assert_eq!(parse_completion("{\"action\":\"none\"}"), Ok(Intent::NoAction));
    assert_eq!(
        parse_completion(" { \"action\" : \"none\" } "),
        Ok(Intent::NoAction)
    );
}

#[test]
fn completion_send_shape_maps_to_transfer() {
    let resp = format!(
        "{{\"action\":\"send_eth\",\"amount\":1.5,\"recipient\":\"{}\"}}",
        ADDR
    );
    assert_eq!(parse_completion(&resp), Ok(transfer(false, 15, 1, ADDR)));
}

#[test]
fn completion_missing_fields_substitute_defaults() {
    assert_eq!(
        parse_completion("{\"action\":\"send_eth\"}"),
        Ok(transfer(false, 0, 0, ""))
    );
    assert_eq!(
        parse_completion("{\"action\":\"send_eth\",\"amount\":null,\"recipient\":7}"),
        Ok(transfer(false, 0, 0, ""))
    );
}

#[test]
fn completion_other_action_is_no_action() {
    assert_eq!(parse_completion("{\"action\":\"greet\"}"), Ok(Intent::NoAction));
    assert_eq!(parse_completion("{\"action\":true}"), Ok(Intent::NoAction));
}

#[test]
fn completion_invalid_json_is_malformed() {
    assert_eq!(
        parse_completion("hello there"),
        Err(ExtractError::MalformedResponse)
    );
    assert_eq!(
        parse_completion("{\"action\":\"none\""),
        Err(ExtractError::MalformedResponse)
    );
    assert_eq!(
        parse_completion("{\"action\":\"none\"} trailing"),
        Err(ExtractError::MalformedResponse)
    );
    assert_eq!(parse_completion(""), Err(ExtractError::MalformedResponse));
}

#[test]
fn completion_without_action_is_malformed() {
    assert_eq!(
        parse_completion("{\"amount\":1}"),
        Err(ExtractError::MalformedResponse)
    );
    assert_eq!(parse_completion("{}"), Err(ExtractError::MalformedResponse));
}

#[test]
fn delegated_no_reply_is_service_unavailable() {
    assert_eq!(
        extract_delegated(None),
        Err(ExtractError::ServiceUnavailable)
    );
    assert_eq!(
        extract_delegated(Some("{\"action\":\"none\"}")),
        Ok(Intent::NoAction)
    );
}

#[test]
fn completion_accepts_all_of_json() {
    // escaped quotes decode; the action is a string other than send_eth
    assert_eq!(
        parse_completion("{\"action\":\"no\\\"ne\"}"),
        Ok(Intent::NoAction)
    );
    // nested objects and arrays are valid values; such an action is not send_eth
    assert_eq!(
        parse_completion("{\"action\":{\"inner\":[1,{\"a\":\"b\"},true]}}"),
        Ok(Intent::NoAction)
    );
    assert_eq!(parse_completion("{\"action\":[\"none\"]}"), Ok(Intent::NoAction));
    // exponent numbers map into the decimal representation
    assert_eq!(
        parse_completion("{\"action\":\"send_eth\",\"amount\":1e18}"),
        Ok(transfer(false, 1_000_000_000_000_000_000, 0, ""))
    );
    assert_eq!(
        parse_completion("{\"action\":\"send_eth\",\"amount\":2.5E-3}"),
        Ok(transfer(false, 25, 4, ""))
    );
    // a numeric value too large for the representation reads as zero
    assert_eq!(
        parse_completion("{\"action\":\"send_eth\",\"amount\":1e9999}"),
        Ok(transfer(false, 0, 0, ""))
    );
}

#[test]
fn completion_decodes_string_escapes() {
    let r = parse_completion(
        "{\"action\":\"send_eth\",\"recipient\":\"0x\\u0041b\\n\\uD83D\\uDE00\"}",
    );
    assert_eq!(r, Ok(transfer(false, 0, 0, "0xAb\n\u{1F600}")));
    // an escaped action still compares by content
    assert_eq!(
        parse_completion("{\"\\u0061ction\":\"s\\u0065nd_eth\"}"),
        Ok(transfer(false, 0, 0, ""))
    );
}

#[test]
fn completion_rejects_what_json_rejects() {
    // leading zeros, bare escapes, lone surrogate halves, unterminated values
    assert_eq!(
        parse_completion("{\"action\":\"send_eth\",\"amount\":007}"),
        Err(ExtractError::MalformedResponse)
    );
    assert_eq!(
        parse_completion("{\"action\":\"\\q\"}"),
        Err(ExtractError::MalformedResponse)
    );
    assert_eq!(
        parse_completion("{\"action\":\"\\uD800\"}"),
        Err(ExtractError::MalformedResponse)
    );
    assert_eq!(
        parse_completion("{\"action\":\"send_eth\",\"amount\":1.}"),
        Err(ExtractError::MalformedResponse)
    );
    assert_eq!(
        parse_completion("{\"action\":\"send_eth\",\"amount\":1e}"),
        Err(ExtractError::MalformedResponse)
    );
    assert_eq!(
        parse_completion("{\"action\":{\"inner\":1}"),
        Err(ExtractError::MalformedResponse)
    );
}

#[test]
fn instruction_pins_the_canonical_shapes() {
    let text = eth_agent::delegate::intent_instruction();
    assert!(text.contains("{\"action\":\"send_eth\",\"amount\":<number>,\"recipient\":\"<address>\"}"));
    assert!(text.contains("{\"action\":\"none\"}"));
}

#[test]
fn completion_negative_amount_passes_through_to_dispatch() {
    // extraction does not validate; the dispatcher rejects the value
    let resp = format!(
        "{{\"action\":\"send_eth\",\"amount\":-1.5,\"recipient\":\"{}\"}}",
        ADDR
    );
    assert_eq!(parse_completion(&resp), Ok(transfer(true, 15, 1, ADDR)));
}

#[test]
fn completion_first_member_wins_on_repeated_keys() {
    let resp = "{\"action\":\"none\",\"action\":\"send_eth\"}";
    assert_eq!(parse_completion(resp), Ok(Intent::NoAction));
}
