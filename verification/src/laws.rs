//! Laws that relate several operations of the market.
//!
//! Each operation's own contract pins down its guards and its effect;
//! these proofs chain them across calls: what financing promises about the
//! clock decides a later reclaim, and what finalization deletes makes a
//! repeated finalization fail.

use vstd::prelude::*;
use crate::errors::MarketError;
use crate::locked_token::LockedTokenState;
use crate::{
    finance_effect, lemma_credits_id_record, lemma_holds_id_record, remove_effect,
    spec_is_overdue, Contract,
};

verus! {

/// In a well-formed ledger an item is reachable from at most one
/// holder-index entry: the one of its holder.
pub proof fn lemma_item_in_at_most_one_holder_entry(
    c: Contract,
    a1: Seq<char>,
    a2: Seq<char>,
    id: Seq<char>,
)
    requires
        c.wf(),
        c.holds_id(a1, id),
        c.holds_id(a2, id),
    ensures
        a1 == a2,
{
    lemma_holds_id_record(c, a1, id);
    lemma_holds_id_record(c, a2, id);
}

/// In a well-formed ledger a financed item is reachable from at most one
/// creditor-index entry: the one of its creditor.
pub proof fn lemma_item_in_at_most_one_creditor_entry(
    c: Contract,
    a1: Seq<char>,
    a2: Seq<char>,
    id: Seq<char>,
)
    requires
        c.wf(),
        c.credits_id(a1, id),
        c.credits_id(a2, id),
    ensures
        a1 == a2,
{
    lemma_credits_id_record(c, a1, id);
    lemma_credits_id_record(c, a2, id);
}

/// Financing starts the clock: reclaiming before `duration` seconds have
/// elapsed since the financing time always fails with the not-yet-overdue
/// guard error, whoever financed.
pub proof fn lemma_reclaim_before_deadline_fails(
    pre: Contract,
    post: Contract,
    lender: Seq<char>,
    now0: u64,
    now: u64,
    id: Seq<char>,
)
    requires
        pre.wf(),
        pre.records().contains_key(id),
        pre.records()[id].state == LockedTokenState::Sale,
        finance_effect(pre, post, lender, now0, id),
        !spec_is_overdue(now0, pre.records()[id].duration, now),
    ensures
        post.reclaim_outcome(lender, now, id) == Err::<(), MarketError>(
            MarketError::NotYetOverdue,
        ),
{
    assert(post.creditor_ids(lender)[post.creditor_ids(lender).len() - 1] == id);
    assert(post.credits_id(lender, id));
    assert(post.records()[id].state == LockedTokenState::Locked);
    assert(post.records()[id].start_time == Some(now0));
    assert(post.records()[id].duration == pre.records()[id].duration);
}

/// Once `duration` seconds have elapsed since financing, the creditor's
/// reclaim always succeeds.
pub proof fn lemma_reclaim_after_deadline_succeeds(
    pre: Contract,
    post: Contract,
    lender: Seq<char>,
    now0: u64,
    now: u64,
    id: Seq<char>,
)
    requires
        pre.wf(),
        pre.records().contains_key(id),
        pre.records()[id].state == LockedTokenState::Sale,
        finance_effect(pre, post, lender, now0, id),
        spec_is_overdue(now0, pre.records()[id].duration, now),
    ensures
        post.reclaim_outcome(lender, now, id) == Ok::<(), MarketError>(()),
{
    assert(post.creditor_ids(lender)[post.creditor_ids(lender).len() - 1] == id);
    assert(post.credits_id(lender, id));
    assert(post.records()[id].state == LockedTokenState::Locked);
    assert(post.records()[id].start_time == Some(now0));
    assert(post.records()[id].duration == pre.records()[id].duration);
}

/// Finalization deletes for good: after an item has been finalized,
/// finalizing it again — even by the holding identity itself — fails with
/// not-found.
pub proof fn lemma_finalize_twice_not_found(pre: Contract, mid: Contract, id: Seq<char>)
    requires
        pre.wf(),
        pre.records().contains_key(id),
        remove_effect(pre, mid, id),
    ensures
        mid.remove_outcome(mid.holding_account(), id) == Err::<(), MarketError>(
            MarketError::TokenNotFound,
        ),
{
}

} // verus!
