//! The structured classification of a command, and the pipeline's error
//! taxonomy.

use vstd::prelude::*;
use crate::decimal::Decimal;

verus! {

/// What a command asks for: a value transfer, or nothing actionable.
///
/// Extraction may produce a transfer with an invalid amount or recipient;
/// validation is enforced at the dispatch boundary, never assumed here.
#[derive(Clone, Debug, PartialEq, Eq)]
pub enum Intent {
    Transfer { amount: Decimal, recipient: String },
    NoAction,
}

/// Failures of the delegated extraction strategy. A command that simply
/// carries no transfer intent is not an error.
#[derive(Clone, Copy, Debug, PartialEq, Eq, Structural)]
pub enum ExtractError {
    /// The completion service call could not complete.
    ServiceUnavailable,
    /// The service's reply was not a recognizable intent object.
    MalformedResponse,
}

/// Failures of transaction dispatch, one per pipeline step, so a caller can
/// tell "nothing happened" from "something was submitted".
#[derive(Clone, Debug, PartialEq, Eq)]
pub enum DispatchError {
    /// The recipient is not a syntactically valid chain address; no nonce
    /// was consumed and no node call was made.
    InvalidRecipient,
    /// The amount is not positive or does not convert to the minor unit; no
    /// nonce was consumed and no node call was made.
    InvalidAmount,
    /// No connection to the chain node could be obtained; no nonce was
    /// consumed.
    ProviderUnavailable,
    /// The signer failed after the nonce was reserved.
    SigningFailed,
    /// The node rejected the submission or reported no result; carries the
    /// node's own words.
    SubmissionFailed(String),
}

} // verus!
