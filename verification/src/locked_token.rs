//! Collateral records and their lifecycle states.
//!
//! A `LockedToken` is the ledger entry for one collateral item: who posted
//! it, the loan terms, who financed it, and where it stands in the
//! lifecycle state machine.

use vstd::prelude::*;

verus! {

/// Lifecycle state of a collateral record.
///
/// Legal transitions: `Sale -> Return` (cancel), `Sale -> Locked` (finance),
/// `Locked -> TransferToBorrower` (repay), `Locked -> TransferToCreditor`
/// (reclaim on default). `Return`, `TransferToCreditor` and
/// `TransferToBorrower` are pre-terminal: the record waits there for the
/// external item registry to confirm the custody transfer, after which the
/// record is removed.
#[derive(Clone, Copy, PartialEq, Eq, Structural, Debug)]
pub enum LockedTokenState {
    Sale,
    Return,
    Locked,
    TransferToCreditor,
    TransferToBorrower,
}

impl LockedTokenState {
    /// Human-readable name of the state.
    pub fn name(&self) -> (r: &'static str)
        ensures
            *self == LockedTokenState::Sale ==> r@ == "Sale"@,
            *self == LockedTokenState::Return ==> r@ == "Return"@,
            *self == LockedTokenState::Locked ==> r@ == "Locked"@,
            *self == LockedTokenState::TransferToCreditor ==> r@ == "TransferToCreditor"@,
            *self == LockedTokenState::TransferToBorrower ==> r@ == "TransferToBorrower"@,
    {
        match *self {
            LockedTokenState::Sale => "Sale",
            LockedTokenState::Return => "Return",
            LockedTokenState::Locked => "Locked",
            LockedTokenState::TransferToCreditor => "TransferToCreditor",
            LockedTokenState::TransferToBorrower => "TransferToBorrower",
        }
    }
}

/// One collateral record: a uniquely identified item posted by `owner_id`
/// as security for a loan of `borrowed_money`, optionally financed by
/// `creditor`.
pub struct LockedToken {
    /// Unique identifier of the collateral item.
    pub token_id: String,
    /// Account that posted the item (the borrower).
    pub owner_id: String,
    /// Maximum seconds the loan may stay financed before it is overdue.
    pub duration: u64,
    /// Principal, a decimal unsigned integer kept as a string.
    pub borrowed_money: String,
    /// Interest rate as an integer percentage of the principal.
    pub apr: u64,
    /// Account that financed the loan; `None` until financing occurs.
    pub creditor: Option<String>,
    /// Timestamp (nanoseconds) at which financing occurred; `None` until then.
    pub start_time: Option<u64>,
    /// Free-form listing metadata, passed through untouched.
    pub extra: String,
    /// Free-form listing metadata, passed through untouched.
    pub market_type: String,
    /// Current lifecycle state.
    pub state: LockedTokenState,
}

impl Clone for LockedToken {
    fn clone(&self) -> (r: Self)
        ensures
            r == *self,
    {
        LockedToken {
            token_id: self.token_id.clone(),
            owner_id: self.owner_id.clone(),
            duration: self.duration,
            borrowed_money: self.borrowed_money.clone(),
            apr: self.apr,
            creditor: match &self.creditor {
                Some(c) => Some(c.clone()),
                None => None,
            },
            start_time: self.start_time,
            extra: self.extra.clone(),
            market_type: self.market_type.clone(),
            state: self.state,
        }
    }
}

/// The creditor field of a record, abstracted to its character sequence.
pub open spec fn creditor_view(t: LockedToken) -> Option<Seq<char>> {
    match t.creditor {
        Some(c) => Some(c@),
        None => None,
    }
}

/// True for the three pre-terminal states, in which the record is a pending
/// custody-transfer request awaiting confirmation by the item registry.
pub open spec fn is_pre_terminal(s: LockedTokenState) -> bool {
    ||| s == LockedTokenState::Return
    ||| s == LockedTokenState::TransferToCreditor
    ||| s == LockedTokenState::TransferToBorrower
}

/// Internal coherence of a single record: a creditor and a start time are
/// recorded together, and exactly for the states reached through financing.
pub open spec fn token_coherent(t: LockedToken) -> bool {
    &&& (t.creditor is Some <==> t.start_time is Some)
    &&& (t.creditor is Some <==> (t.state == LockedTokenState::Locked
        || t.state == LockedTokenState::TransferToCreditor
        || t.state == LockedTokenState::TransferToBorrower))
}

} // verus!
