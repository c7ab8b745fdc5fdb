//! Storage-cost accounting.
//!
//! Every operation that grows the backing store must be paid for by the
//! caller. The host measures the store's size in bytes around the mutation;
//! this module turns that measurement into the exact deposit owed and the
//! refund due, so deposits are neither insufficient nor silently
//! over-collected.

use vstd::prelude::*;
use crate::errors::MarketError;

verus! {

/// The bytes an operation must pay for: a fixed per-record overhead plus
/// the measured growth of the store, never negative.
pub open spec fn spec_storage_bytes(overhead: u64, before: u64, after: u64) -> int {
    if after >= before {
        overhead + (after - before)
    } else {
        overhead as int
    }
}

/// Bytes to charge for an operation that moved the backing store from
/// `before` to `after` bytes, on top of the fixed `overhead` measured once
/// for a record's index entry. A shrinking store charges the overhead alone.
pub fn required_storage_bytes(overhead: u64, before: u64, after: u64) -> (r: u64)
    requires
        overhead + after <= u64::MAX,
    ensures
        r == spec_storage_bytes(overhead, before, after),
{
    if after >= before {
        overhead + (after - before)
    } else {
        overhead
    }
}

/// The deposit owed for `bytes` of storage at `byte_cost` each.
pub open spec fn spec_storage_cost(bytes: u64, byte_cost: u128) -> int {
    bytes * byte_cost
}

/// Settles the caller's attached deposit against the storage bill:
/// `Ok(refund)` returns the excess over the exact cost, and
/// `InsufficientStorageDeposit` is the case `attached < bytes * byte_cost`
/// — then the whole surrounding operation must be rolled back.
///
/// A forced transfer not initiated by the party that would receive the
/// refund is settled by the caller skipping this step, not by refunding the
/// wrong party.
pub fn settle_storage_deposit(attached: u128, bytes: u64, byte_cost: u128) -> (r: Result<
    u128,
    MarketError,
>)
    ensures
        (r is Ok) == (attached >= spec_storage_cost(bytes, byte_cost)),
        r matches Ok(refund) ==> refund == attached - spec_storage_cost(bytes, byte_cost),
        r is Err ==> (r matches Err(e) && e == MarketError::InsufficientStorageDeposit),
{
    match (bytes as u128).checked_mul(byte_cost) {
        Some(cost) => {
            if attached >= cost {
                Ok(attached - cost)
            } else {
                Err(MarketError::InsufficientStorageDeposit)
            }
        },
        None => {
            proof {
                assert(spec_storage_cost(bytes, byte_cost) > u128::MAX);
            }
            Err(MarketError::InsufficientStorageDeposit)
        },
    }
}

} // verus!
