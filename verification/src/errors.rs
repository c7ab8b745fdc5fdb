//! Structured failures returned by the market's entry points.
//!
//! Every guard in the lifecycle rejects synchronously with one of these
//! values, before any mutation of the ledger.

use vstd::prelude::*;

verus! {

/// Why a market operation was refused. No partial mutation is retained when
/// one of these is returned.
#[derive(Clone, Copy, PartialEq, Eq, Structural, Debug)]
pub enum MarketError {
    /// A listing notification claimed a holder other than the account that
    /// signed it.
    SignerMismatch,
    /// The requested loan duration does not exceed the minimum of 60 seconds.
    DurationTooShort,
    /// The requested interest rate is not strictly positive.
    NonPositiveInterest,
    /// The stored principal is not a decimal unsigned integer in range.
    InvalidPrincipal,
    /// No record with the given item identifier is tracked by the market.
    TokenNotFound,
    /// The record exists but is not in a state that permits the action.
    StateConflict,
    /// The caller is not the account entitled to the action.
    Unauthorized,
    /// The attached payment differs from the exact amount required.
    PaymentMismatch,
    /// A reclaim was attempted before the loan became overdue.
    NotYetOverdue,
    /// The loan is overdue, so it can no longer be repaid.
    LoanOverdue,
    /// A callback from the item registry arrived in an unexpected shape.
    ProtocolViolation,
    /// The attached payment does not cover the measured storage cost.
    InsufficientStorageDeposit,
}

impl MarketError {
    /// Short description of the failure.
    pub fn message(&self) -> (r: &'static str)
        ensures
            *self == MarketError::SignerMismatch ==> r@
                == "the claimed holder did not sign the notification"@,
            *self == MarketError::DurationTooShort ==> r@
                == "the loan duration must exceed 60 seconds"@,
            *self == MarketError::NonPositiveInterest ==> r@
                == "the interest rate must be strictly positive"@,
            *self == MarketError::InvalidPrincipal ==> r@
                == "the principal is not a decimal unsigned integer"@,
            *self == MarketError::TokenNotFound ==> r@ == "no such token is tracked by the market"@,
            *self == MarketError::StateConflict ==> r@
                == "the token is not in a state that permits this action"@,
            *self == MarketError::Unauthorized ==> r@
                == "the caller is not entitled to this action"@,
            *self == MarketError::PaymentMismatch ==> r@
                == "the attached payment differs from the required amount"@,
            *self == MarketError::NotYetOverdue ==> r@
                == "there is still time for the borrower to return money"@,
            *self == MarketError::LoanOverdue ==> r@
                == "the loan is overdue and can no longer be repaid"@,
            *self == MarketError::ProtocolViolation ==> r@
                == "unexpected callback from the item registry"@,
            *self == MarketError::InsufficientStorageDeposit ==> r@
                == "the payment does not cover the storage cost"@,
    {
        match *self {
            MarketError::SignerMismatch => "the claimed holder did not sign the notification",
            MarketError::DurationTooShort => "the loan duration must exceed 60 seconds",
            MarketError::NonPositiveInterest => "the interest rate must be strictly positive",
            MarketError::InvalidPrincipal => "the principal is not a decimal unsigned integer",
            MarketError::TokenNotFound => "no such token is tracked by the market",
            MarketError::StateConflict => "the token is not in a state that permits this action",
            MarketError::Unauthorized => "the caller is not entitled to this action",
            MarketError::PaymentMismatch => "the attached payment differs from the required amount",
            MarketError::NotYetOverdue => "there is still time for the borrower to return money",
            MarketError::LoanOverdue => "the loan is overdue and can no longer be repaid",
            MarketError::ProtocolViolation => "unexpected callback from the item registry",
            MarketError::InsufficientStorageDeposit => "the payment does not cover the storage cost",
        }
    }
}

} // verus!
