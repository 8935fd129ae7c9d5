//! Transaction dispatch: validating a transfer intent, converting its
//! amount, reserving a nonce, and accounting for the node's verdict.
//!
//! Per dispatch the steps run in a fixed order — recipient syntax, amount
//! conversion, provider connection, nonce reservation, then signing and
//! submission — and a failure at any step is terminal and names the step.
//! No nonce is consumed before a connection stands; once the nonce is
//! reserved it is never reused, whatever the submission outcome. That is a
//! deliberate policy: a submission that fails after reservation leaves its
//! number unused, and the caller reconciles by rebuilding the sequence from
//! the chain's current account nonce rather than by reusing numbers.
//!
//! The node calls themselves (connecting, signing, submitting) happen
//! outside this crate; their outcomes enter as plain values.

use vstd::prelude::*;
use crate::decimal::Decimal;
use crate::intent::DispatchError;

verus! {

/// Whether a character is an ASCII hexadecimal digit.
pub open spec fn is_hex_char(c: char) -> bool {
    ||| 48 <= c as u32 <= 57
    ||| 97 <= c as u32 <= 102
    ||| 65 <= c as u32 <= 70
}

/// A syntactically valid chain address: `0x` followed by exactly 40
/// hexadecimal digits.
pub open spec fn spec_valid_address(s: Seq<char>) -> bool {
    &&& s.len() == 42
    &&& s[0] == '0'
    &&& s[1] == 'x'
    &&& forall|k: int| 2 <= k < 42 ==> is_hex_char(#[trigger] s[k])
}

/// Checks recipient address syntax.
pub fn is_valid_address(s: &str) -> (r: bool)
    ensures
        r == spec_valid_address(s@),
{
    let n: usize = s.unicode_len();
    if n != 42 {
        return false;
    }
    if s.get_char(0) != '0' || s.get_char(1) != 'x' {
        return false;
    }
    let mut i: usize = 2;
    while i < 42
        invariant
            2 <= i <= 42,
            s@.len() == 42,
            forall|k: int| 2 <= k < i ==> is_hex_char(#[trigger] s@[k]),
        decreases 42 - i,
    {
        let v: u32 = s.get_char(i) as u32;
        let hex: bool = (48 <= v && v <= 57) || (97 <= v && v <= 102) || (65 <= v && v <= 70);
        if !hex {
            return false;
        }
        i = i + 1;
    }
    true
}

/// The signer's key material, derived address, and target chain, resolved
/// once at startup and passed explicitly.
pub struct SignerContext {
    pub address: String,
    pub chain_id: u64,
    pub key: Vec<u8>,
}

impl SignerContext {
    /// Builds the process-wide signer context.
    pub fn new(address: String, chain_id: u64, key: Vec<u8>) -> (r: SignerContext)
        ensures
            r.address@ == address@,
            r.chain_id == chain_id,
            r.key@ == key@,
    {
        SignerContext { address, chain_id, key }
    }
}

/// The per-signer sequence counter. `next` is the number the next reserved
/// nonce will carry; it never decreases and never repeats a reserved value.
pub struct NonceSequence {
    pub next: u64,
}

impl NonceSequence {
    /// Starts the sequence at the account's current chain nonce.
    pub fn new(start: u64) -> (r: NonceSequence)
        ensures
            r.next == start,
    {
        NonceSequence { next: start }
    }

    /// Atomically reserves the next nonce: the only way to read or advance
    /// the counter. Callers serialize access per signer address.
    pub fn reserve(&mut self) -> (n: u64)
        requires
            old(self).next < u64::MAX,
        ensures
            n == old(self).next,
            final(self).next == old(self).next + 1,
    {
        let n: u64 = self.next;
        self.next = self.next + 1;
        n
    }

    /// Reserves `count` nonces in one exclusive run, as concurrent
    /// dispatches for one signer do inside their critical sections.
    pub fn reserve_run(&mut self, count: u64) -> (r: Vec<u64>)
        requires
            old(self).next + count <= u64::MAX,
        ensures
            r@.len() == count,
            forall|k: int| 0 <= k < count ==> r@[k] == old(self).next + k,
            final(self).next == old(self).next + count,
    {
        let mut out: Vec<u64> = Vec::new();
        let mut done: u64 = 0;
        while done < count
            invariant
                done <= count,
                old(self).next + count <= u64::MAX,
                self.next == old(self).next + done,
                out@.len() == done,
                forall|k: int| 0 <= k < done ==> out@[k] == old(self).next + k,
            decreases count - done,
        {
            let n: u64 = self.reserve();
            out.push(n);
            done = done + 1;
        }
        out
    }
}

/// Law: the nonces of a reservation run are distinct and form a contiguous,
/// gap-free range starting at the counter's prior value, however the
/// dispatches that hold them later complete.
pub proof fn lemma_nonce_run_contiguous(start: u64, ns: Seq<u64>)
    requires
        forall|k: int| 0 <= k < ns.len() ==> ns[k] == start + k,
    ensures
        forall|k1: int, k2: int|
            0 <= k1 < ns.len() && 0 <= k2 < ns.len() && k1 != k2 ==> ns[k1] != ns[k2],
        forall|v: u64| start <= v < start + ns.len() ==> ns.contains(v),
        forall|k: int| 0 <= k < ns.len() ==> start <= #[trigger] ns[k] < start + ns.len(),
{
    assert forall|v: u64| start <= v < start + ns.len() implies ns.contains(v) by {
        let k = v - start;
        assert(ns[k] == v);
    }
}

/// A transfer that passed recipient and amount validation: the recipient is
/// a syntactically valid address and the value is the amount in minor units.
#[derive(Debug)]
pub struct ValidatedTransfer {
    pub recipient: String,
    pub value: u128,
}

/// The chain-ready request: what gets signed and submitted.
#[derive(Debug)]
pub struct TxRequest {
    pub recipient: String,
    pub value: u128,
    pub nonce: u64,
    pub chain_id: u64,
}

/// Validates a transfer intent's fields, in dispatch order: recipient
/// syntax first, then amount positivity and minor-unit conversion. Touches
/// neither the nonce sequence nor the node.
pub fn validate_transfer(amount: &Decimal, recipient: &str) -> (r: Result<
    ValidatedTransfer,
    DispatchError,
>)
    ensures
        match r {
            Ok(v) => {
                &&& spec_valid_address(recipient@)
                &&& amount.is_positive()
                &&& amount.spec_minor_units() <= u128::MAX
                &&& v.recipient@ == recipient@
                &&& v.value as nat == amount.spec_minor_units()
            },
            Err(DispatchError::InvalidRecipient) => !spec_valid_address(recipient@),
            Err(DispatchError::InvalidAmount) => spec_valid_address(recipient@) && (
            !amount.is_positive() || amount.spec_minor_units() > u128::MAX),
            Err(_) => false,
        },
{
    if !is_valid_address(recipient) {
        return Err(DispatchError::InvalidRecipient);
    }
    if amount.negative || amount.mantissa == 0 {
        return Err(DispatchError::InvalidAmount);
    }
    match amount.to_minor_units() {
        Some(value) => Ok(ValidatedTransfer { recipient: recipient.to_owned(), value }),
        None => Err(DispatchError::InvalidAmount),
    }
}

/// Reserves the nonce for a validated transfer and assembles the
/// chain-ready request. Runs only after a connection to the node stands.
pub fn assign_nonce(v: ValidatedTransfer, ctx: &SignerContext, seq: &mut NonceSequence) -> (r:
    TxRequest)
    requires
        old(seq).next < u64::MAX,
    ensures
        r.recipient@ == v.recipient@,
        r.value == v.value,
        r.nonce == old(seq).next,
        r.chain_id == ctx.chain_id,
        final(seq).next == old(seq).next + 1,
{
    let nonce: u64 = seq.reserve();
    TxRequest { recipient: v.recipient, value: v.value, nonce, chain_id: ctx.chain_id }
}

/// What the world reported back for a submission attempt.
pub enum SubmitOutcome {
    /// The node accepted the payload and returned a transaction identifier;
    /// this means submitted, not confirmed.
    Accepted(String),
    /// The node rejected the payload or reported no result; carries its
    /// words.
    Rejected(String),
    /// The signer failed before anything reached the node.
    NotSigned,
}

/// Accounts for the submission outcome of a dispatched request.
pub fn complete_submission(outcome: SubmitOutcome) -> (r: Result<String, DispatchError>)
    ensures
        match outcome {
            SubmitOutcome::Accepted(h) => r == Result::<String, DispatchError>::Ok(h),
            SubmitOutcome::Rejected(m) => r == Result::<String, DispatchError>::Err(
                DispatchError::SubmissionFailed(m),
            ),
            SubmitOutcome::NotSigned => r == Result::<String, DispatchError>::Err(
                DispatchError::SigningFailed,
            ),
        },
{
    match outcome {
        SubmitOutcome::Accepted(h) => Ok(h),
        SubmitOutcome::Rejected(m) => Err(DispatchError::SubmissionFailed(m)),
        SubmitOutcome::NotSigned => Err(DispatchError::SigningFailed),
    }
}

/// Runs one whole dispatch against recorded outside outcomes: whether a
/// connection stood, and what came back for the submission. Exactly the
/// state machine `Idle -> Validated -> NonceAssigned -> Submitted`;
/// validation and connection failures consume no nonce, and one nonce is
/// consumed exactly when the dispatch reaches submission.
pub fn dispatch(
    amount: &Decimal,
    recipient: &str,
    ctx: &SignerContext,
    seq: &mut NonceSequence,
    connected: bool,
    outcome: SubmitOutcome,
) -> (r: Result<String, DispatchError>)
    requires
        old(seq).next < u64::MAX,
    ensures
        !spec_valid_address(recipient@) ==> r == Result::<String, DispatchError>::Err(
            DispatchError::InvalidRecipient,
        ) && final(seq).next == old(seq).next,
        spec_valid_address(recipient@) && (!amount.is_positive() || amount.spec_minor_units()
            > u128::MAX) ==> r == Result::<String, DispatchError>::Err(
            DispatchError::InvalidAmount,
        ) && final(seq).next == old(seq).next,
        spec_valid_address(recipient@) && amount.is_positive() && amount.spec_minor_units()
            <= u128::MAX && !connected ==> r == Result::<String, DispatchError>::Err(
            DispatchError::ProviderUnavailable,
        ) && final(seq).next == old(seq).next,
        spec_valid_address(recipient@) && amount.is_positive() && amount.spec_minor_units()
            <= u128::MAX && connected ==> final(seq).next == old(seq).next + 1 && (match outcome {
            SubmitOutcome::Accepted(h) => r == Result::<String, DispatchError>::Ok(h),
            SubmitOutcome::Rejected(m) => r == Result::<String, DispatchError>::Err(
                DispatchError::SubmissionFailed(m),
            ),
            SubmitOutcome::NotSigned => r == Result::<String, DispatchError>::Err(
                DispatchError::SigningFailed,
            ),
        }),
{
    let v: ValidatedTransfer = match validate_transfer(amount, recipient) {
        Ok(v) => v,
        Err(e) => {
            return Err(e);
        },
    };
    if !connected {
        return Err(DispatchError::ProviderUnavailable);
    }
    let _req: TxRequest = assign_nonce(v, ctx, seq);
    complete_submission(outcome)
}

} // verus!
