//! Processing of the item registry's approval callback.
//!
//! After the registry handles the approval that precedes a listing, it
//! reports back exactly one result. Any other count is a protocol
//! violation. A successful result carries a confirmation token: the decimal
//! digits of the approval identifier.

use vstd::prelude::*;
use crate::errors::MarketError;
use crate::parse::{parse_u64_bytes, spec_parse_u64_bytes};

verus! {

/// The result of the one asynchronous registry call this market awaits,
/// as handed over by the host.
pub enum PromiseOutcome {
    /// The call has not completed; seeing this in a callback breaks the
    /// single-outcome protocol.
    NotReady,
    /// The registry call failed.
    Failed,
    /// The registry call succeeded with the given payload.
    Successful(Vec<u8>),
}

/// Validates the registry's approval callback: exactly one upstream result
/// is expected, a failed call is acknowledged, and a successful one must
/// carry a well-formed confirmation token.
pub fn process_approval_callback(results_count: u64, outcome: &PromiseOutcome) -> (r: Result<
    String,
    MarketError,
>)
    ensures
        results_count != 1 ==> r == Err::<String, MarketError>(MarketError::ProtocolViolation),
        results_count == 1 ==> match outcome {
            PromiseOutcome::NotReady => r == Err::<String, MarketError>(
                MarketError::ProtocolViolation,
            ),
            PromiseOutcome::Failed => r matches Ok(m) && m@ == "oops!"@,
            PromiseOutcome::Successful(payload) => if spec_parse_u64_bytes(payload@) is Some {
                r matches Ok(m) && m@ == "Successfully received approve"@
            } else {
                r == Err::<String, MarketError>(MarketError::ProtocolViolation)
            },
        },
{
    if results_count != 1 {
        return Err(MarketError::ProtocolViolation);
    }
    match outcome {
        PromiseOutcome::NotReady => Err(MarketError::ProtocolViolation),
        PromiseOutcome::Failed => Ok("oops!".to_owned()),
        PromiseOutcome::Successful(payload) => {
            match parse_u64_bytes(payload.as_slice()) {
                Some(_approval_id) => Ok("Successfully received approve".to_owned()),
                None => Err(MarketError::ProtocolViolation),
            }
        },
    }
}

} // verus!
