//! A verified command-to-transaction pipeline for a single-signer chain agent.
//!
//! The crate turns free-form command text into a structured [`intent::Intent`]
//! (either a value transfer or no actionable request), validates and converts
//! a transfer into a chain-ready request with a unique nonce, and renders the
//! outcome as a user-facing response string. All transport (prompting, the
//! completion service, the chain node) lives outside this crate; the library
//! receives their outcomes as plain values and decides everything else.

pub mod decimal;
pub mod delegate;
pub mod dispatch;
pub mod extract;
pub mod intent;
pub mod json;
pub mod pipeline;
pub mod respond;
