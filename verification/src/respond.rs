//! Rendering pipeline outcomes as the user-facing response strings.
//!
//! Every outcome, success or failure, becomes an ordinary response; a
//! success response always carries the transaction identifier.

use vstd::prelude::*;
use vstd::string::StringExecFns;
use crate::intent::{DispatchError, ExtractError};

verus! {

/// Renders a dispatch outcome. A success response embeds the transaction
/// identifier; each failure names its step.
pub fn render_dispatch(res: Result<String, DispatchError>) -> (r: String)
    ensures
        match res {
            Ok(h) => r@ == "Transaction sent! Hash: "@ + h@,
            Err(DispatchError::InvalidRecipient) => r@ == "Invalid recipient address."@,
            Err(DispatchError::InvalidAmount) => r@ == "Invalid amount."@,
            Err(DispatchError::ProviderUnavailable) => r@ == "Provider unavailable."@,
            Err(DispatchError::SigningFailed) => r@ == "Signing failed."@,
            Err(DispatchError::SubmissionFailed(m)) => r@ == "Submission failed: "@ + m@,
        },
{
    match res {
        Ok(h) => {
            let mut s: String = "Transaction sent! Hash: ".to_owned();
            s.append(h.as_str());
            s
        },
        Err(DispatchError::InvalidRecipient) => "Invalid recipient address.".to_owned(),
        Err(DispatchError::InvalidAmount) => "Invalid amount.".to_owned(),
        Err(DispatchError::ProviderUnavailable) => "Provider unavailable.".to_owned(),
        Err(DispatchError::SigningFailed) => "Signing failed.".to_owned(),
        Err(DispatchError::SubmissionFailed(m)) => {
            let mut s: String = "Submission failed: ".to_owned();
            s.append(m.as_str());
            s
        },
    }
}

/// Renders an extraction failure.
pub fn render_extract_error(e: ExtractError) -> (r: String)
    ensures
        match e {
            ExtractError::ServiceUnavailable => r@ == "Service unavailable."@,
            ExtractError::MalformedResponse => r@
                == "Malformed response from the intent service."@,
        },
{
    match e {
        ExtractError::ServiceUnavailable => "Service unavailable.".to_owned(),
        ExtractError::MalformedResponse => "Malformed response from the intent service."
            .to_owned(),
    }
}

} // verus!
