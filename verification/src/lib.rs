//! A peer-to-peer lending market collateralized by uniquely identified
//! tokens. A borrower posts an item as collateral, a lender supplies the
//! principal, and at maturity either principal plus interest is returned to
//! the lender (item released to the borrower) or, if overdue, the item is
//! forfeited to the lender.
//!
//! The library is the market core: the collateral ledger with its ownership
//! indices, the loan lifecycle state machine with its guards, and the
//! storage-cost accounting. The surrounding host — the account that signed a
//! call, the attached payment, the clock, the asynchronous custody transfers
//! against the external item registry — is handed in and out as plain
//! values, so every rule of the market is checked here.

pub mod callbacks;
mod errors;
pub mod laws;
mod locked_token;
pub mod nft_to_json_converter;
pub mod parse;
pub mod storage_fees;

pub use errors::MarketError;
pub use locked_token::{creditor_view, is_pre_terminal, token_coherent, LockedToken,
    LockedTokenState};

use vstd::hash_map::StringHashMap;
use vstd::prelude::*;

verus! {

use crate::parse::{parse_u128, spec_parse_u128};

/// Nanoseconds in one second, for the overdue check on timestamps.
pub const NANOS_PER_SEC: u64 = 1000000000;

/// An instruction to the host to forward funds to `receiver_id`.
pub struct FundsTransfer {
    /// Account the funds go to.
    pub receiver_id: String,
    /// Amount to forward, in the smallest currency unit.
    pub amount: u128,
}

/// An instruction to the host to ask the external item registry for a
/// custody transfer of `token_id` into the market's holding account.
pub struct TransferRequest {
    /// The registry account that owns true custody of the item.
    pub registry_id: String,
    /// The account custody moves to.
    pub receiver_id: String,
    /// The item to move, under the registry's own identifier.
    pub token_id: String,
    /// The approval token under which the registry accepts the transfer.
    pub approval_id: String,
}

/// The caller-supplied terms of a new listing, with named fields validated
/// one by one.
pub struct ListingTerms {
    /// The registry account the collateral item lives on.
    pub market: String,
    /// Principal, a decimal unsigned integer kept as a string.
    pub borrowed_money: String,
    /// Interest rate as an integer percentage of the principal.
    pub apr: u64,
    /// Maximum seconds the loan may stay financed, must exceed 60.
    pub borrow_duration: u64,
    /// Free-form listing metadata, stored untouched.
    pub extra: String,
    /// Free-form listing metadata, stored untouched.
    pub market_type: String,
}

/// The collateral ledger: one record per live item, plus the two secondary
/// indices (items by holder, items by creditor), a reverse map from item to
/// holder, and the market's own configured holding identity.
pub struct Contract {
    /// The market's own holding account; only it may finalize removals.
    owner_id: String,
    /// Items listed per holder account.
    tokens_stored_per_owner: StringHashMap<Vec<String>>,
    /// Every account that has a holder-index entry, in insertion order.
    holder_accounts: Vec<String>,
    /// Items financed per creditor account.
    credit_tokens_per_creditor: StringHashMap<Vec<String>>,
    /// The record store, keyed by item identifier.
    token_id_to_locked_token: StringHashMap<LockedToken>,
    /// Reverse map from item identifier to the account that posted it.
    nft_locker_by_token_id: StringHashMap<String>,
}

impl Contract {
    /// The record store as a map from item identifier to record.
    pub closed spec fn records(&self) -> Map<Seq<char>, LockedToken> {
        self.token_id_to_locked_token@
    }

    /// The market's configured holding identity.
    pub closed spec fn holding_account(&self) -> Seq<char> {
        self.owner_id@
    }

    /// Whether the holder index has an entry for `a` (even an empty one).
    pub closed spec fn has_holder_entry(&self, a: Seq<char>) -> bool {
        self.tokens_stored_per_owner@.contains_key(a)
    }

    /// The item identifiers the holder index lists for account `a`.
    pub closed spec fn holder_ids(&self, a: Seq<char>) -> Seq<Seq<char>> {
        if self.tokens_stored_per_owner@.contains_key(a) {
            self.tokens_stored_per_owner@[a].deep_view()
        } else {
            Seq::empty()
        }
    }

    /// The item identifiers the creditor index lists for account `a`.
    pub closed spec fn creditor_ids(&self, a: Seq<char>) -> Seq<Seq<char>> {
        if self.credit_tokens_per_creditor@.contains_key(a) {
            self.credit_tokens_per_creditor@[a].deep_view()
        } else {
            Seq::empty()
        }
    }

    /// The holder recorded for item `id` in the reverse map.
    pub closed spec fn locker_of(&self, id: Seq<char>) -> Option<Seq<char>> {
        if self.nft_locker_by_token_id@.contains_key(id) {
            Some(self.nft_locker_by_token_id@[id]@)
        } else {
            None
        }
    }

    /// The accounts with a holder-index entry, in insertion order.
    pub closed spec fn account_list(&self) -> Seq<Seq<char>> {
        self.holder_accounts.deep_view()
    }

    /// Item `id` is listed in the holder index under account `a`.
    pub open spec fn holds_id(&self, a: Seq<char>, id: Seq<char>) -> bool {
        self.holder_ids(a).contains(id)
    }

    /// Item `id` is listed in the creditor index under account `a`.
    pub open spec fn credits_id(&self, a: Seq<char>, id: Seq<char>) -> bool {
        self.creditor_ids(a).contains(id)
    }

    /// Each record is stored under its own item identifier and is
    /// internally coherent.
    pub open spec fn wf_records(&self) -> bool {
        forall|id: Seq<char>| #[trigger]
            self.records().contains_key(id) ==> self.records()[id].token_id@ == id
                && token_coherent(self.records()[id])
    }

    /// The reverse map tracks exactly the live records and names each
    /// record's holder.
    pub open spec fn wf_locker(&self) -> bool {
        &&& forall|id: Seq<char>| #[trigger]
            self.records().contains_key(id) ==> self.locker_of(id) == Some(
                self.records()[id].owner_id@,
            )
        &&& forall|id: Seq<char>|
            (#[trigger] self.locker_of(id)) is Some ==> self.records().contains_key(id)
    }

    /// The holder index lists exactly the live records, each under its
    /// holder, each at most once.
    pub open spec fn wf_holder(&self) -> bool {
        &&& forall|id: Seq<char>| #[trigger]
            self.records().contains_key(id) ==> self.holds_id(self.records()[id].owner_id@, id)
        &&& forall|a: Seq<char>, i: int|
            0 <= i < self.holder_ids(a).len() ==> {
                &&& self.records().contains_key(#[trigger] self.holder_ids(a)[i])
                &&& self.records()[self.holder_ids(a)[i]].owner_id@ == a
            }
        &&& forall|a: Seq<char>, i: int, j: int|
            0 <= i < j < self.holder_ids(a).len() ==> #[trigger] self.holder_ids(a)[i]
                != #[trigger] self.holder_ids(a)[j]
    }

    /// The creditor index lists exactly the financed records, each under
    /// its creditor, each at most once.
    pub open spec fn wf_creditor(&self) -> bool {
        &&& forall|id: Seq<char>|
            #[trigger] self.records().contains_key(id) && self.records()[id].creditor is Some
                ==> self.credits_id(creditor_view(self.records()[id]).unwrap(), id)
        &&& forall|a: Seq<char>, i: int|
            0 <= i < self.creditor_ids(a).len() ==> {
                &&& self.records().contains_key(#[trigger] self.creditor_ids(a)[i])
                &&& creditor_view(self.records()[self.creditor_ids(a)[i]]) == Some(a)
            }
        &&& forall|a: Seq<char>, i: int, j: int|
            0 <= i < j < self.creditor_ids(a).len() ==> #[trigger] self.creditor_ids(a)[i]
                != #[trigger] self.creditor_ids(a)[j]
    }

    /// The account list mirrors the holder index's keys, each at most once.
    pub open spec fn wf_accounts(&self) -> bool {
        &&& forall|a: Seq<char>| #[trigger]
            self.has_holder_entry(a) <==> self.account_list().contains(a)
        &&& forall|i: int, j: int|
            0 <= i < j < self.account_list().len() ==> #[trigger] self.account_list()[i]
                != #[trigger] self.account_list()[j]
    }

    /// Well-formedness of the whole ledger: every operation requires it and
    /// preserves it. It is what makes a collateral item impossible to lose
    /// or duplicate: one record per live item, reachable from exactly one
    /// holder-index entry and — once financed — exactly one creditor-index
    /// entry.
    pub open spec fn wf(&self) -> bool {
        &&& self.wf_records()
        &&& self.wf_locker()
        &&& self.wf_holder()
        &&& self.wf_creditor()
        &&& self.wf_accounts()
    }

    /// Creates an empty market whose holding identity is `owner_id`.
    pub fn new(owner_id: String) -> (c: Contract)
        ensures
            c.wf(),
            c.holding_account() == owner_id@,
            c.records() == Map::<Seq<char>, LockedToken>::empty(),
            forall|a: Seq<char>| #[trigger] c.holder_ids(a) == Seq::<Seq<char>>::empty(),
            forall|a: Seq<char>| !#[trigger] c.has_holder_entry(a),
            forall|a: Seq<char>| #[trigger] c.creditor_ids(a) == Seq::<Seq<char>>::empty(),
            forall|id: Seq<char>| #[trigger] c.locker_of(id) is None,
            c.account_list() == Seq::<Seq<char>>::empty(),
    {
        let c = Contract {
            owner_id,
            tokens_stored_per_owner: StringHashMap::new(),
            holder_accounts: Vec::new(),
            credit_tokens_per_creditor: StringHashMap::new(),
            token_id_to_locked_token: StringHashMap::new(),
            nft_locker_by_token_id: StringHashMap::new(),
        };
        proof {
            assert(c.account_list() =~= Seq::<Seq<char>>::empty());
        }
        c
    }
}

/// The loan financed at `start` (nanoseconds) with the given `duration`
/// (seconds) is overdue at time `now`: the elapsed whole seconds reach the
/// duration.
pub open spec fn spec_is_overdue(start: u64, duration: u64, now: u64) -> bool {
    now >= start && (now - start) / (NANOS_PER_SEC as int) >= duration
}

/// The record `t`, which must be financed, is overdue at time `now`.
pub open spec fn record_overdue(t: LockedToken, now: u64) -> bool {
    t.start_time is Some && spec_is_overdue(t.start_time.unwrap(), t.duration, now)
}

/// The record `t` with its state replaced by `st` and all else unchanged.
pub open spec fn change_state(t: LockedToken, st: LockedTokenState) -> LockedToken {
    LockedToken { state: st, ..t }
}

/// The whole effect of a pure state transition on record `id`: its state
/// becomes `st`; every other record, both indices, the reverse map, the
/// account list and the holding identity stay as they were.
pub open spec fn set_state_effect(
    pre: Contract,
    post: Contract,
    id: Seq<char>,
    st: LockedTokenState,
) -> bool {
    &&& post.records() == pre.records().insert(id, change_state(pre.records()[id], st))
    &&& post.holding_account() == pre.holding_account()
    &&& forall|a: Seq<char>| #[trigger] post.holder_ids(a) == pre.holder_ids(a)
    &&& forall|a: Seq<char>| #[trigger] post.has_holder_entry(a) == pre.has_holder_entry(a)
    &&& forall|a: Seq<char>| #[trigger] post.creditor_ids(a) == pre.creditor_ids(a)
    &&& forall|x: Seq<char>| #[trigger] post.locker_of(x) == pre.locker_of(x)
    &&& post.account_list() == pre.account_list()
}

/// An item listed in the holder index under `a` has a live record whose
/// holder is `a`.
pub proof fn lemma_holds_id_record(c: Contract, a: Seq<char>, id: Seq<char>)
    requires
        c.wf(),
        c.holds_id(a, id),
    ensures
        c.records().contains_key(id),
        c.records()[id].owner_id@ == a,
{
    let i = choose|i: int| 0 <= i < c.holder_ids(a).len() && c.holder_ids(a)[i] == id;
    assert(c.records().contains_key(c.holder_ids(a)[i]));
}

/// An item listed in the creditor index under `a` has a live record whose
/// creditor is `a`.
pub proof fn lemma_credits_id_record(c: Contract, a: Seq<char>, id: Seq<char>)
    requires
        c.wf(),
        c.credits_id(a, id),
    ensures
        c.records().contains_key(id),
        creditor_view(c.records()[id]) == Some(a),
{
    let i = choose|i: int| 0 <= i < c.creditor_ids(a).len() && c.creditor_ids(a)[i] == id;
    assert(c.records().contains_key(c.creditor_ids(a)[i]));
}

impl Contract {
    /// What a pure state transition on `token_id` decides, given who
    /// initiated it (`init_owner`, the record's holder) and who custody
    /// would return to (`return_owner`): not-found when the holder index
    /// does not list the item for `init_owner`; a state conflict when the
    /// record is not in the state the transition leaves; unauthorized when
    /// the transition's role rule is broken. `Ok` exactly otherwise.
    pub open spec fn change_status_outcome(
        &self,
        init_owner: Seq<char>,
        return_owner: Seq<char>,
        id: Seq<char>,
        action: LockedTokenState,
    ) -> Result<(), MarketError> {
        if !self.holds_id(init_owner, id) {
            Err(MarketError::TokenNotFound)
        } else if action == LockedTokenState::Return {
            if self.records()[id].state != LockedTokenState::Sale {
                Err(MarketError::StateConflict)
            } else if init_owner != return_owner {
                Err(MarketError::Unauthorized)
            } else {
                Ok(())
            }
        } else if action == LockedTokenState::TransferToCreditor {
            if self.records()[id].state != LockedTokenState::Locked {
                Err(MarketError::StateConflict)
            } else if creditor_view(self.records()[id]) != Some(return_owner) {
                Err(MarketError::Unauthorized)
            } else {
                Ok(())
            }
        } else {
            if self.records()[id].state != LockedTokenState::Locked {
                Err(MarketError::StateConflict)
            } else if return_owner != self.records()[id].owner_id@ {
                Err(MarketError::Unauthorized)
            } else {
                Ok(())
            }
        }
    }

    /// Moves the record for `token_id` into the pre-terminal state
    /// `action`, after every guard of the transition has passed; on any
    /// failure the ledger is left untouched.
    fn change_status_to_some_returning(
        &mut self,
        init_owner: &String,
        return_owner: &String,
        token_id: &String,
        action: LockedTokenState,
    ) -> (r: Result<(), MarketError>)
        requires
            old(self).wf(),
            is_pre_terminal(action),
        ensures
            final(self).wf(),
            r == old(self).change_status_outcome(init_owner@, return_owner@, token_id@, action),
            r is Ok ==> set_state_effect(*old(self), *final(self), token_id@, action),
            r is Err ==> *final(self) == *old(self),
    {
        let listed = match self.tokens_stored_per_owner.get(init_owner.as_str()) {
            Some(ids) => vec_index_of_id(ids, token_id).is_some(),
            None => false,
        };
        if !listed {
            return Err(MarketError::TokenNotFound);
        }
        proof {
            lemma_holds_id_record(*self, init_owner@, token_id@);
        }
        let token = match self.token_id_to_locked_token.get(token_id.as_str()) {
            Some(t) => t.clone(),
            None => {
                return Err(MarketError::TokenNotFound);
            },
        };
        match action {
            LockedTokenState::Return => {
                if token.state != LockedTokenState::Sale {
                    return Err(MarketError::StateConflict);
                }
                if !(*init_owner == *return_owner) {
                    return Err(MarketError::Unauthorized);
                }
            },
            LockedTokenState::TransferToCreditor => {
                if token.state != LockedTokenState::Locked {
                    return Err(MarketError::StateConflict);
                }
                let authorized = match &token.creditor {
                    Some(c) => *c == *return_owner,
                    None => false,
                };
                if !authorized {
                    return Err(MarketError::Unauthorized);
                }
            },
            LockedTokenState::TransferToBorrower => {
                if token.state != LockedTokenState::Locked {
                    return Err(MarketError::StateConflict);
                }
                if !(*return_owner == token.owner_id) {
                    return Err(MarketError::Unauthorized);
                }
            },
            _ => {
                proof {
                    assert(false);
                }
                return Err(MarketError::StateConflict);
            },
        }
        let mut changed = token;
        changed.state = action;
        self.token_id_to_locked_token.insert(token_id.clone(), changed);
        proof {
            lemma_set_state_preserves_wf(*old(self), *self, token_id@, action);
        }
        Ok(())
    }
}

/// A pure state transition into a pre-terminal state keeps the ledger
/// well-formed, provided the record was in the state the transition leaves.
proof fn lemma_set_state_preserves_wf(
    pre: Contract,
    post: Contract,
    id: Seq<char>,
    action: LockedTokenState,
)
    requires
        pre.wf(),
        pre.records().contains_key(id),
        is_pre_terminal(action),
        action == LockedTokenState::Return ==> pre.records()[id].state == LockedTokenState::Sale,
        action != LockedTokenState::Return ==> pre.records()[id].state == LockedTokenState::Locked,
        set_state_effect(pre, post, id, action),
    ensures
        post.wf(),
{
    let t0 = pre.records()[id];
    let t1 = change_state(t0, action);
    assert(token_coherent(t1));
    assert forall|x: Seq<char>| #[trigger] post.records().contains_key(x) implies
        post.records()[x].token_id@ == x && token_coherent(post.records()[x]) by {
        if x != id {
            assert(pre.records().contains_key(x));
            assert(post.records()[x] == pre.records()[x]);
        }
    }
    assert forall|x: Seq<char>| #[trigger] post.records().contains_key(x) implies post.locker_of(x)
        == Some(post.records()[x].owner_id@) by {
        if x != id {
            assert(pre.records().contains_key(x));
        }
    }
    assert forall|x: Seq<char>| (#[trigger] post.locker_of(x)) is Some implies
        post.records().contains_key(x) by {
        assert(pre.locker_of(x) == post.locker_of(x));
    }
    assert forall|x: Seq<char>| #[trigger] post.records().contains_key(x) implies post.holds_id(
        post.records()[x].owner_id@,
        x,
    ) by {
        if x == id {
            assert(pre.holds_id(t0.owner_id@, id));
        } else {
            assert(pre.records().contains_key(x));
            assert(pre.holds_id(pre.records()[x].owner_id@, x));
        }
    }
    assert forall|a: Seq<char>, i: int| 0 <= i < post.holder_ids(a).len() implies {
        &&& post.records().contains_key(#[trigger] post.holder_ids(a)[i])
        &&& post.records()[post.holder_ids(a)[i]].owner_id@ == a
    } by {
        assert(post.holder_ids(a) == pre.holder_ids(a));
        assert(pre.records().contains_key(pre.holder_ids(a)[i]));
        assert(pre.records()[pre.holder_ids(a)[i]].owner_id@ == a);
    }
    assert forall|a: Seq<char>, i: int, j: int| 0 <= i < j < post.holder_ids(a).len() implies
        #[trigger] post.holder_ids(a)[i] != #[trigger] post.holder_ids(a)[j] by {
        assert(post.holder_ids(a) == pre.holder_ids(a));
        assert(pre.holder_ids(a)[i] != pre.holder_ids(a)[j]);
    }
    assert forall|x: Seq<char>|
        #[trigger] post.records().contains_key(x) && post.records()[x].creditor is Some implies
        post.credits_id(creditor_view(post.records()[x]).unwrap(), x) by {
        if x == id {
            assert(creditor_view(t1) == creditor_view(t0));
            if t0.creditor is Some {
                assert(pre.credits_id(creditor_view(t0).unwrap(), id));
            }
        } else {
            assert(pre.records().contains_key(x));
            assert(pre.records()[x].creditor is Some ==> pre.credits_id(
                creditor_view(pre.records()[x]).unwrap(),
                x,
            ));
        }
    }
    assert forall|a: Seq<char>, i: int| 0 <= i < post.creditor_ids(a).len() implies {
        &&& post.records().contains_key(#[trigger] post.creditor_ids(a)[i])
        &&& creditor_view(post.records()[post.creditor_ids(a)[i]]) == Some(a)
    } by {
        assert(post.creditor_ids(a) == pre.creditor_ids(a));
        assert(pre.records().contains_key(pre.creditor_ids(a)[i]));
        assert(creditor_view(pre.records()[pre.creditor_ids(a)[i]]) == Some(a));
        if pre.creditor_ids(a)[i] == id {
            assert(creditor_view(t1) == creditor_view(t0));
        }
    }
    assert forall|a: Seq<char>, i: int, j: int| 0 <= i < j < post.creditor_ids(a).len() implies
        #[trigger] post.creditor_ids(a)[i] != #[trigger] post.creditor_ids(a)[j] by {
        assert(post.creditor_ids(a) == pre.creditor_ids(a));
        assert(pre.creditor_ids(a)[i] != pre.creditor_ids(a)[j]);
    }
}

impl Contract {
    /// Whether the financed record `token` is overdue at time `now`
    /// (nanoseconds): elapsed whole seconds reach the agreed duration.
    pub fn check_is_token_delayed(&self, token: &LockedToken, now: u64) -> (r: bool)
        requires
            token.start_time is Some,
        ensures
            r == record_overdue(*token, now),
    {
        let start = match token.start_time {
            Some(s) => s,
            None => {
                return false;
            },
        };
        if now < start {
            return false;
        }
        (now - start) / NANOS_PER_SEC >= token.duration
    }

    /// The item identifiers currently listed for `account_id` in the
    /// holder index.
    pub fn get_tokens_stored_per_owner(&self, account_id: &String) -> (r: Vec<String>)
        ensures
            r.deep_view() == self.holder_ids(account_id@),
    {
        match self.tokens_stored_per_owner.get(account_id.as_str()) {
            Some(ids) => {
                let r = clone_id_vec(ids);
                proof {
                    assert(r.deep_view() =~= self.holder_ids(account_id@));
                }
                r
            },
            None => {
                let r: Vec<String> = Vec::new();
                proof {
                    assert(r.deep_view() =~= self.holder_ids(account_id@));
                }
                r
            },
        }
    }

    /// The item identifiers currently listed for `lender_id` in the
    /// creditor index.
    pub fn get_tokens_for_lent_money(&self, lender_id: &String) -> (r: Vec<String>)
        ensures
            r.deep_view() == self.creditor_ids(lender_id@),
    {
        match self.credit_tokens_per_creditor.get(lender_id.as_str()) {
            Some(ids) => {
                let r = clone_id_vec(ids);
                proof {
                    assert(r.deep_view() =~= self.creditor_ids(lender_id@));
                }
                r
            },
            None => {
                let r: Vec<String> = Vec::new();
                proof {
                    assert(r.deep_view() =~= self.creditor_ids(lender_id@));
                }
                r
            },
        }
    }

    /// Cancels the listing of `token_id`: only its holder may cancel, and
    /// only from `Sale`. The record moves to `Return`, a pending request to
    /// hand the item back to the holder; no funds move.
    pub fn transfer_nft_back(&mut self, caller_id: &String, token_id: String) -> (r: Result<
        (),
        MarketError,
    >)
        requires
            old(self).wf(),
        ensures
            final(self).wf(),
            r == old(self).change_status_outcome(
                caller_id@,
                caller_id@,
                token_id@,
                LockedTokenState::Return,
            ),
            r is Ok ==> set_state_effect(
                *old(self),
                *final(self),
                token_id@,
                LockedTokenState::Return,
            ),
            r is Err ==> *final(self) == *old(self),
    {
        self.change_status_to_some_returning(
            caller_id,
            caller_id,
            &token_id,
            LockedTokenState::Return,
        )
    }
}

/// An item that is not financed is listed in no creditor-index entry.
pub proof fn lemma_unfinanced_not_in_creditor_index(c: Contract, id: Seq<char>)
    requires
        c.wf(),
        c.records().contains_key(id) ==> c.records()[id].creditor is None,
    ensures
        forall|a: Seq<char>| !c.credits_id(a, id),
{
    assert forall|a: Seq<char>| !c.credits_id(a, id) by {
        if c.credits_id(a, id) {
            lemma_credits_id_record(c, a, id);
        }
    }
}

/// The financed copy `t1` of record `t0`: creditor `lender`, clock started
/// at `now`, state `Locked`, every other field untouched.
pub open spec fn financed_record(
    t0: LockedToken,
    t1: LockedToken,
    lender: Seq<char>,
    now: u64,
) -> bool {
    &&& t1.token_id == t0.token_id
    &&& t1.owner_id == t0.owner_id
    &&& t1.duration == t0.duration
    &&& t1.borrowed_money == t0.borrowed_money
    &&& t1.apr == t0.apr
    &&& creditor_view(t1) == Some(lender)
    &&& t1.start_time == Some(now)
    &&& t1.extra == t0.extra
    &&& t1.market_type == t0.market_type
    &&& t1.state == LockedTokenState::Locked
}

/// The whole effect of financing item `id`: its record becomes the
/// financed copy, the item is appended to `lender`'s creditor-index entry,
/// and everything else stays as it was.
pub open spec fn finance_effect(
    pre: Contract,
    post: Contract,
    lender: Seq<char>,
    now: u64,
    id: Seq<char>,
) -> bool {
    &&& pre.records().contains_key(id)
    &&& financed_record(pre.records()[id], post.records()[id], lender, now)
    &&& post.records() == pre.records().insert(id, post.records()[id])
    &&& post.creditor_ids(lender) == pre.creditor_ids(lender).push(id)
    &&& forall|a: Seq<char>| a != lender ==> #[trigger] post.creditor_ids(a) == pre.creditor_ids(a)
    &&& forall|a: Seq<char>| #[trigger] post.holder_ids(a) == pre.holder_ids(a)
    &&& forall|a: Seq<char>| #[trigger] post.has_holder_entry(a) == pre.has_holder_entry(a)
    &&& forall|x: Seq<char>| #[trigger] post.locker_of(x) == pre.locker_of(x)
    &&& post.account_list() == pre.account_list()
    &&& post.holding_account() == pre.holding_account()
}

/// Financing a record in `Sale` keeps the ledger well-formed.
proof fn lemma_finance_preserves_wf(
    pre: Contract,
    post: Contract,
    lender: Seq<char>,
    now: u64,
    id: Seq<char>,
)
    requires
        pre.wf(),
        pre.records().contains_key(id),
        pre.records()[id].state == LockedTokenState::Sale,
        finance_effect(pre, post, lender, now, id),
    ensures
        post.wf(),
{
    let t0 = pre.records()[id];
    let t1 = post.records()[id];
    assert(t0.creditor is None);
    lemma_unfinanced_not_in_creditor_index(pre, id);
    assert forall|x: Seq<char>| #[trigger] post.records().contains_key(x) implies
        post.records()[x].token_id@ == x && token_coherent(post.records()[x]) by {
        if x != id {
            assert(pre.records().contains_key(x));
            assert(post.records()[x] == pre.records()[x]);
        } else {
            assert(t1.token_id@ == t0.token_id@);
        }
    }
    assert forall|x: Seq<char>| #[trigger] post.records().contains_key(x) implies post.locker_of(x)
        == Some(post.records()[x].owner_id@) by {
        if x != id {
            assert(pre.records().contains_key(x));
        } else {
            assert(t1.owner_id@ == t0.owner_id@);
        }
    }
    assert forall|x: Seq<char>| (#[trigger] post.locker_of(x)) is Some implies
        post.records().contains_key(x) by {
        assert(pre.locker_of(x) == post.locker_of(x));
    }
    assert forall|x: Seq<char>| #[trigger] post.records().contains_key(x) implies post.holds_id(
        post.records()[x].owner_id@,
        x,
    ) by {
        if x == id {
            assert(pre.holds_id(t0.owner_id@, id));
        } else {
            assert(pre.records().contains_key(x));
            assert(pre.holds_id(pre.records()[x].owner_id@, x));
        }
    }
    assert forall|a: Seq<char>, i: int| 0 <= i < post.holder_ids(a).len() implies {
        &&& post.records().contains_key(#[trigger] post.holder_ids(a)[i])
        &&& post.records()[post.holder_ids(a)[i]].owner_id@ == a
    } by {
        assert(post.holder_ids(a) == pre.holder_ids(a));
        assert(pre.records().contains_key(pre.holder_ids(a)[i]));
        assert(pre.records()[pre.holder_ids(a)[i]].owner_id@ == a);
    }
    assert forall|a: Seq<char>, i: int, j: int| 0 <= i < j < post.holder_ids(a).len() implies
        #[trigger] post.holder_ids(a)[i] != #[trigger] post.holder_ids(a)[j] by {
        assert(post.holder_ids(a) == pre.holder_ids(a));
        assert(pre.holder_ids(a)[i] != pre.holder_ids(a)[j]);
    }
    assert forall|x: Seq<char>|
        #[trigger] post.records().contains_key(x) && post.records()[x].creditor is Some implies
        post.credits_id(creditor_view(post.records()[x]).unwrap(), x) by {
        if x == id {
            assert(post.creditor_ids(lender) == pre.creditor_ids(lender).push(id));
            assert(post.creditor_ids(lender)[post.creditor_ids(lender).len() - 1] == id);
        } else {
            assert(pre.records().contains_key(x));
            if pre.records()[x].creditor is Some {
                let c = creditor_view(pre.records()[x]).unwrap();
                assert(pre.credits_id(c, x));
                if c == lender {
                    let k = choose|k: int|
                        0 <= k < pre.creditor_ids(lender).len() && pre.creditor_ids(lender)[k]
                            == x;
                    assert(post.creditor_ids(lender)[k] == x);
                }
            }
        }
    }
    assert forall|a: Seq<char>, i: int| 0 <= i < post.creditor_ids(a).len() implies {
        &&& post.records().contains_key(#[trigger] post.creditor_ids(a)[i])
        &&& creditor_view(post.records()[post.creditor_ids(a)[i]]) == Some(a)
    } by {
        if a == lender && i == post.creditor_ids(a).len() - 1 {
            assert(post.creditor_ids(a)[i] == id);
        } else {
            assert(post.creditor_ids(a)[i] == pre.creditor_ids(a)[i]);
            let x = pre.creditor_ids(a)[i];
            assert(pre.records().contains_key(x));
            assert(creditor_view(pre.records()[x]) == Some(a));
            assert(x != id);
        }
    }
    assert forall|a: Seq<char>, i: int, j: int| 0 <= i < j < post.creditor_ids(a).len() implies
        #[trigger] post.creditor_ids(a)[i] != #[trigger] post.creditor_ids(a)[j] by {
        if a == lender {
            assert(!pre.credits_id(lender, id));
            if j == post.creditor_ids(a).len() - 1 {
                assert(post.creditor_ids(a)[i] == pre.creditor_ids(a)[i]);
                assert(post.creditor_ids(a)[j] == id);
                assert(pre.creditor_ids(a).contains(pre.creditor_ids(a)[i]));
            } else {
                assert(post.creditor_ids(a)[i] == pre.creditor_ids(a)[i]);
                assert(post.creditor_ids(a)[j] == pre.creditor_ids(a)[j]);
            }
        } else {
            assert(post.creditor_ids(a) == pre.creditor_ids(a));
        }
    }
}

impl Contract {
    /// What financing `id` with `deposit` attached decides for caller
    /// `lender`: not-found when the reverse map does not know the item;
    /// unauthorized when the lender is the item's own holder; a state
    /// conflict unless the record is in `Sale`; an invalid principal when
    /// the stored principal does not read as an unsigned integer; a payment
    /// mismatch unless the deposit equals the principal exactly. `Ok`
    /// exactly otherwise.
    pub open spec fn finance_outcome(&self, lender: Seq<char>, deposit: u128, id: Seq<char>)
        -> Result<(), MarketError> {
        match self.locker_of(id) {
            None => Err(MarketError::TokenNotFound),
            Some(owner) => if lender == owner {
                Err(MarketError::Unauthorized)
            } else if self.records()[id].state != LockedTokenState::Sale {
                Err(MarketError::StateConflict)
            } else {
                match spec_parse_u128(self.records()[id].borrowed_money@) {
                    None => Err(MarketError::InvalidPrincipal),
                    Some(p) => if deposit != p {
                        Err(MarketError::PaymentMismatch)
                    } else {
                        Ok(())
                    },
                }
            },
        }
    }

    /// Finances the `Sale` record for `token_id`: the caller `lender_id`
    /// attaches a payment that must equal the parsed principal exactly. On
    /// success the record locks with the lender as creditor and the clock
    /// started at `now`, and the returned transfer forwards the full
    /// deposit to the item's holder. On any failure nothing changes.
    pub fn transfer_deposit_for_nft(
        &mut self,
        lender_id: &String,
        deposit: u128,
        now: u64,
        token_id: String,
    ) -> (r: Result<FundsTransfer, MarketError>)
        requires
            old(self).wf(),
        ensures
            final(self).wf(),
            (r is Ok) == (old(self).finance_outcome(lender_id@, deposit, token_id@) is Ok),
            r matches Err(e) ==> old(self).finance_outcome(lender_id@, deposit, token_id@)
                == Err::<(), MarketError>(e),
            r is Err ==> *final(self) == *old(self),
            r matches Ok(f) ==> ({
                &&& finance_effect(*old(self), *final(self), lender_id@, now, token_id@)
                &&& f.receiver_id@ == old(self).records()[token_id@].owner_id@
                &&& f.amount == deposit
            }),
    {
        let owner = match self.nft_locker_by_token_id.get(token_id.as_str()) {
            Some(o) => o.clone(),
            None => {
                return Err(MarketError::TokenNotFound);
            },
        };
        if *lender_id == owner {
            return Err(MarketError::Unauthorized);
        }
        let token = match self.token_id_to_locked_token.get(token_id.as_str()) {
            Some(t) => t.clone(),
            None => {
                return Err(MarketError::TokenNotFound);
            },
        };
        if token.state != LockedTokenState::Sale {
            return Err(MarketError::StateConflict);
        }
        let principal = match parse_u128(token.borrowed_money.as_str()) {
            Some(p) => p,
            None => {
                return Err(MarketError::InvalidPrincipal);
            },
        };
        if deposit != principal {
            return Err(MarketError::PaymentMismatch);
        }
        let ghost pre = *self;
        let mut lent = self.get_tokens_for_lent_money(lender_id);
        lent.push(token_id.clone());
        let mut financed = token;
        financed.state = LockedTokenState::Locked;
        financed.creditor = Some(lender_id.clone());
        financed.start_time = Some(now);
        self.token_id_to_locked_token.insert(token_id.clone(), financed);
        self.credit_tokens_per_creditor.insert(lender_id.clone(), lent);
        proof {
            assert(self.creditor_ids(lender_id@) =~= pre.creditor_ids(lender_id@).push(token_id@));
            assert(finance_effect(pre, *self, lender_id@, now, token_id@));
            lemma_finance_preserves_wf(pre, *self, lender_id@, now, token_id@);
        }
        Ok(FundsTransfer { receiver_id: owner, amount: deposit })
    }
}

/// The amount that repays a loan of principal `p` at interest rate `apr`
/// percent: the principal plus the truncated integer interest.
pub open spec fn spec_repay_amount(p: int, apr: int) -> int {
    p + p * apr / 100
}

/// Truncating division distributes over the split of `p` into hundreds and
/// remainder: `p * apr / 100 == (p / 100) * apr + (p % 100) * apr / 100`.
proof fn lemma_interest_split(p: int, apr: int)
    requires
        p >= 0,
        apr >= 0,
    ensures
        p * apr / 100 == (p / 100) * apr + (p % 100) * apr / 100,
{
    let q = p / 100;
    let rem = p % 100;
    vstd::arithmetic::div_mod::lemma_fundamental_div_mod(p, 100);
    assert(p * apr == 100 * (q * apr) + rem * apr) by (nonlinear_arith)
        requires
            p == 100 * q + rem,
    ;
    let b = rem * apr;
    vstd::arithmetic::div_mod::lemma_mod_bound(p, 100);
    assert(rem * apr >= 0) by (nonlinear_arith)
        requires
            rem >= 0,
            apr >= 0,
    ;
    vstd::arithmetic::div_mod::lemma_fundamental_div_mod(b, 100);
    assert(p * apr == 100 * (q * apr + b / 100) + b % 100);
    vstd::arithmetic::div_mod::lemma_div_multiples_vanish_fancy(q * apr + b / 100, b % 100, 100);
}

/// The exact repayment owed for `principal` at `apr` percent, or `None`
/// when that amount does not fit in the payment type — in which case no
/// attachable payment can equal it.
fn required_repay_amount(principal: u128, apr: u64) -> (r: Option<u128>)
    ensures
        match r {
            Some(v) => v == spec_repay_amount(principal as int, apr as int),
            None => spec_repay_amount(principal as int, apr as int) > u128::MAX,
        },
{
    proof {
        lemma_interest_split(principal as int, apr as int);
    }
    let q: u128 = principal / 100;
    let rem: u128 = principal % 100;
    let apr_wide: u128 = apr as u128;
    let hi = match q.checked_mul(apr_wide) {
        Some(x) => x,
        None => {
            proof {
                assert(spec_repay_amount(principal as int, apr as int) > u128::MAX);
            }
            return None;
        },
    };
    proof {
        assert(rem < 100);
        assert(rem * apr_wide <= 99 * 0xffffffffffffffffu128) by (nonlinear_arith)
            requires
                0 <= rem < 100,
                0 <= apr_wide <= 0xffffffffffffffffu128,
        ;
    }
    let lo: u128 = (rem * apr_wide) / 100;
    let interest = match hi.checked_add(lo) {
        Some(x) => x,
        None => {
            return None;
        },
    };
    match principal.checked_add(interest) {
        Some(v) => Some(v),
        None => None,
    }
}

impl Contract {
    /// What repaying `id` with `deposit` attached at time `now` decides
    /// for caller `caller`: not-found when the holder index does not list
    /// the item for the caller; a state conflict unless the record is
    /// `Locked`; overdue loans can no longer be repaid; an invalid
    /// principal when the stored principal does not read as an unsigned
    /// integer; a payment mismatch unless the deposit equals principal
    /// plus truncated interest exactly. `Ok` exactly otherwise.
    pub open spec fn repay_outcome(&self, caller: Seq<char>, deposit: u128, now: u64, id: Seq<char>)
        -> Result<(), MarketError> {
        if !self.holds_id(caller, id) {
            Err(MarketError::TokenNotFound)
        } else if self.records()[id].state != LockedTokenState::Locked {
            Err(MarketError::StateConflict)
        } else if record_overdue(self.records()[id], now) {
            Err(MarketError::LoanOverdue)
        } else {
            match spec_parse_u128(self.records()[id].borrowed_money@) {
                None => Err(MarketError::InvalidPrincipal),
                Some(p) => if deposit != spec_repay_amount(
                    p as int,
                    self.records()[id].apr as int,
                ) {
                    Err(MarketError::PaymentMismatch)
                } else {
                    Ok(())
                },
            }
        }
    }

    /// Repays the loan on `token_id`: only its holder, only while the
    /// record is `Locked` and not overdue, and only with a payment of
    /// exactly `principal + principal * apr / 100` (integer truncation).
    /// On success the record moves to `TransferToBorrower` — a pending
    /// request to hand the item back — and the returned transfer forwards
    /// the full payment to the creditor. On any failure nothing changes.
    pub fn repay_loan(
        &mut self,
        caller_id: &String,
        deposit: u128,
        now: u64,
        token_id: String,
    ) -> (r: Result<FundsTransfer, MarketError>)
        requires
            old(self).wf(),
        ensures
            final(self).wf(),
            (r is Ok) == (old(self).repay_outcome(caller_id@, deposit, now, token_id@) is Ok),
            r matches Err(e) ==> old(self).repay_outcome(caller_id@, deposit, now, token_id@)
                == Err::<(), MarketError>(e),
            r is Err ==> *final(self) == *old(self),
            r matches Ok(f) ==> ({
                &&& set_state_effect(
                    *old(self),
                    *final(self),
                    token_id@,
                    LockedTokenState::TransferToBorrower,
                )
                &&& creditor_view(old(self).records()[token_id@]) == Some(f.receiver_id@)
                &&& f.amount == deposit
            }),
    {
        let listed = match self.tokens_stored_per_owner.get(caller_id.as_str()) {
            Some(ids) => vec_index_of_id(ids, &token_id).is_some(),
            None => false,
        };
        if !listed {
            return Err(MarketError::TokenNotFound);
        }
        proof {
            lemma_holds_id_record(*self, caller_id@, token_id@);
        }
        let token = match self.token_id_to_locked_token.get(token_id.as_str()) {
            Some(t) => t.clone(),
            None => {
                return Err(MarketError::TokenNotFound);
            },
        };
        if token.state != LockedTokenState::Locked {
            return Err(MarketError::StateConflict);
        }
        if self.check_is_token_delayed(&token, now) {
            return Err(MarketError::LoanOverdue);
        }
        let principal = match parse_u128(token.borrowed_money.as_str()) {
            Some(p) => p,
            None => {
                return Err(MarketError::InvalidPrincipal);
            },
        };
        let owed = match required_repay_amount(principal, token.apr) {
            Some(v) => v,
            None => {
                return Err(MarketError::PaymentMismatch);
            },
        };
        if deposit != owed {
            return Err(MarketError::PaymentMismatch);
        }
        let creditor = match &token.creditor {
            Some(c) => c.clone(),
            None => {
                return Err(MarketError::StateConflict);
            },
        };
        let res = self.change_status_to_some_returning(
            caller_id,
            caller_id,
            &token_id,
            LockedTokenState::TransferToBorrower,
        );
        match res {
            Ok(()) => Ok(FundsTransfer { receiver_id: creditor, amount: deposit }),
            Err(_) => {
                proof {
                    assert(false);
                }
                Err(MarketError::StateConflict)
            },
        }
    }

    /// What reclaiming `id` at time `now` decides for caller `caller`:
    /// not-found when the creditor index does not list the item for the
    /// caller; a state conflict unless the record is `Locked`; too early
    /// while the loan is not yet overdue. `Ok` exactly otherwise.
    pub open spec fn reclaim_outcome(&self, caller: Seq<char>, now: u64, id: Seq<char>) -> Result<
        (),
        MarketError,
    > {
        if !self.credits_id(caller, id) {
            Err(MarketError::TokenNotFound)
        } else if self.records()[id].state != LockedTokenState::Locked {
            Err(MarketError::StateConflict)
        } else if !record_overdue(self.records()[id], now) {
            Err(MarketError::NotYetOverdue)
        } else {
            Ok(())
        }
    }

    /// Forfeits an overdue loan's collateral to its creditor: only the
    /// creditor may reclaim, only while the record is `Locked`, and only
    /// once `duration` seconds have elapsed since financing. On success
    /// the record moves to `TransferToCreditor` — a pending request to
    /// hand the item to the creditor — and no funds move. On any failure
    /// nothing changes.
    pub fn check_transfer_overdue_nft_to_creditor(
        &mut self,
        caller_id: &String,
        now: u64,
        token_id: String,
    ) -> (r: Result<(), MarketError>)
        requires
            old(self).wf(),
        ensures
            final(self).wf(),
            r == old(self).reclaim_outcome(caller_id@, now, token_id@),
            r is Ok ==> set_state_effect(
                *old(self),
                *final(self),
                token_id@,
                LockedTokenState::TransferToCreditor,
            ),
            r is Err ==> *final(self) == *old(self),
    {
        let listed = match self.credit_tokens_per_creditor.get(caller_id.as_str()) {
            Some(ids) => vec_index_of_id(ids, &token_id).is_some(),
            None => false,
        };
        if !listed {
            return Err(MarketError::TokenNotFound);
        }
        proof {
            lemma_credits_id_record(*self, caller_id@, token_id@);
        }
        let token = match self.token_id_to_locked_token.get(token_id.as_str()) {
            Some(t) => t.clone(),
            None => {
                return Err(MarketError::TokenNotFound);
            },
        };
        if token.state != LockedTokenState::Locked {
            return Err(MarketError::StateConflict);
        }
        if !self.check_is_token_delayed(&token, now) {
            return Err(MarketError::NotYetOverdue);
        }
        let owner = token.owner_id.clone();
        let res = self.change_status_to_some_returning(
            &owner,
            caller_id,
            &token_id,
            LockedTokenState::TransferToCreditor,
        );
        match res {
            Ok(()) => Ok(()),
            Err(_) => {
                proof {
                    assert(false);
                }
                Err(MarketError::StateConflict)
            },
        }
    }
}

/// Removing the sole occurrence of `id` from a duplicate-free sequence
/// leaves a sequence that no longer contains `id`.
proof fn lemma_distinct_remove_not_contains(s: Seq<Seq<char>>, i: int, id: Seq<char>)
    requires
        0 <= i < s.len(),
        s[i] == id,
        forall|x: int, y: int| 0 <= x < y < s.len() ==> s[x] != s[y],
    ensures
        !s.remove(i).contains(id),
        forall|x: int, y: int|
            0 <= x < y < s.remove(i).len() ==> #[trigger] s.remove(i)[x] != #[trigger] s.remove(
                i,
            )[y],
        forall|k: int|
            0 <= k < s.remove(i).len() ==> #[trigger] s.remove(i)[k] == (if k < i {
                s[k]
            } else {
                s[k + 1]
            }),
{
    s.remove_ensures(i);
    assert forall|k: int| 0 <= k < s.remove(i).len() implies !(#[trigger] s.remove(i)[k] == id) by {
        if k < i {
            assert(s.remove(i)[k] == s[k]);
        } else {
            assert(s.remove(i)[k] == s[k + 1]);
        }
    }
}

/// A vector whose view lost position `i` has a deep view that lost
/// position `i`.
proof fn lemma_removed_vec_deep_view(v: Vec<String>, w: Vec<String>, i: int)
    requires
        0 <= i < v@.len(),
        w@ == v@.remove(i),
    ensures
        w.deep_view() == v.deep_view().remove(i),
{
    v@.remove_ensures(i);
    v.deep_view().remove_ensures(i);
    assert forall|k: int| 0 <= k < w.deep_view().len() implies #[trigger] w.deep_view()[k]
        == v.deep_view().remove(i)[k] by {
        if k < i {
            assert(w@[k] == v@[k]);
            assert(v.deep_view().remove(i)[k] == v.deep_view()[k]);
        } else {
            assert(w@[k] == v@[k + 1]);
            assert(v.deep_view().remove(i)[k] == v.deep_view()[k + 1]);
        }
    }
    assert(w.deep_view() =~= v.deep_view().remove(i));
}

/// The whole effect of finalizing item `id`: the record, its reverse-map
/// entry, its holder-index entry and — when financed — its creditor-index
/// entry are gone; everything else stays as it was.
pub open spec fn remove_effect(pre: Contract, post: Contract, id: Seq<char>) -> bool {
    let t = pre.records()[id];
    let owner = t.owner_id@;
    &&& pre.records().contains_key(id)
    &&& post.records() == pre.records().remove(id)
    &&& post.locker_of(id) is None
    &&& forall|x: Seq<char>| x != id ==> #[trigger] post.locker_of(x) == pre.locker_of(x)
    &&& post.holder_ids(owner) == pre.holder_ids(owner).remove(pre.holder_ids(owner).index_of(id))
    &&& forall|a: Seq<char>| a != owner ==> #[trigger] post.holder_ids(a) == pre.holder_ids(a)
    &&& forall|a: Seq<char>| #[trigger] post.has_holder_entry(a) == pre.has_holder_entry(a)
    &&& forall|a: Seq<char>| !post.holds_id(a, id)
    &&& forall|a: Seq<char>| !post.credits_id(a, id)
    &&& (match creditor_view(t) {
        Some(c) => {
            &&& post.creditor_ids(c) == pre.creditor_ids(c).remove(
                pre.creditor_ids(c).index_of(id),
            )
            &&& forall|a: Seq<char>| a != c ==> #[trigger] post.creditor_ids(a)
                == pre.creditor_ids(a)
        },
        None => forall|a: Seq<char>| #[trigger] post.creditor_ids(a) == pre.creditor_ids(a),
    })
    &&& post.account_list() == pre.account_list()
    &&& post.holding_account() == pre.holding_account()
}

/// Finalizing a record keeps the ledger well-formed.
proof fn lemma_remove_preserves_wf(pre: Contract, post: Contract, id: Seq<char>)
    requires
        pre.wf(),
        pre.records().contains_key(id),
        remove_effect(pre, post, id),
    ensures
        post.wf(),
{
    let t = pre.records()[id];
    let owner = t.owner_id@;
    assert forall|x: Seq<char>| #[trigger] post.records().contains_key(x) implies
        post.records()[x].token_id@ == x && token_coherent(post.records()[x]) by {
        assert(pre.records().contains_key(x));
        assert(post.records()[x] == pre.records()[x]);
    }
    assert forall|x: Seq<char>| #[trigger] post.records().contains_key(x) implies post.locker_of(x)
        == Some(post.records()[x].owner_id@) by {
        assert(x != id);
        assert(pre.records().contains_key(x));
    }
    assert forall|x: Seq<char>| (#[trigger] post.locker_of(x)) is Some implies
        post.records().contains_key(x) by {
        assert(x != id);
        assert(pre.locker_of(x) == post.locker_of(x));
    }
    assert forall|x: Seq<char>| #[trigger] post.records().contains_key(x) implies post.holds_id(
        post.records()[x].owner_id@,
        x,
    ) by {
        assert(x != id);
        assert(pre.records().contains_key(x));
        let ax = pre.records()[x].owner_id@;
        assert(pre.holds_id(ax, x));
        if ax == owner {
            let k = choose|k: int|
                0 <= k < pre.holder_ids(owner).len() && pre.holder_ids(owner)[k] == x;
            let i = pre.holder_ids(owner).index_of(id);
            assert(pre.holds_id(owner, id));
            let w = choose|w: int|
                0 <= w < pre.holder_ids(owner).len() && pre.holder_ids(owner)[w] == id;
            assert(pre.holder_ids(owner)[w] == id);
            assert(0 <= i < pre.holder_ids(owner).len() && pre.holder_ids(owner)[i] == id);
            pre.holder_ids(owner).remove_ensures(i);
            assert(k != i);
            if k < i {
                assert(post.holder_ids(owner)[k] == x);
            } else {
                assert(post.holder_ids(owner)[k - 1] == x);
            }
        }
    }
    assert forall|a: Seq<char>, i: int| 0 <= i < post.holder_ids(a).len() implies {
        &&& post.records().contains_key(#[trigger] post.holder_ids(a)[i])
        &&& post.records()[post.holder_ids(a)[i]].owner_id@ == a
    } by {
        let x = post.holder_ids(a)[i];
        assert(post.holds_id(a, x));
        assert(x != id);
        if a == owner {
            let j = pre.holder_ids(owner).index_of(id);
            assert(pre.holds_id(owner, id));
            let w = choose|w: int|
                0 <= w < pre.holder_ids(owner).len() && pre.holder_ids(owner)[w] == id;
            assert(0 <= j < pre.holder_ids(owner).len() && pre.holder_ids(owner)[j] == id);
            pre.holder_ids(owner).remove_ensures(j);
            if i < j {
                assert(x == pre.holder_ids(owner)[i]);
            } else {
                assert(x == pre.holder_ids(owner)[i + 1]);
            }
            assert(pre.records().contains_key(x) && pre.records()[x].owner_id@ == a);
        } else {
            assert(pre.records().contains_key(x) && pre.records()[x].owner_id@ == a);
        }
        assert(post.records().contains_key(x));
    }
    assert forall|a: Seq<char>, i: int, j: int| 0 <= i < j < post.holder_ids(a).len() implies
        #[trigger] post.holder_ids(a)[i] != #[trigger] post.holder_ids(a)[j] by {
        if a == owner {
            let r = pre.holder_ids(owner).index_of(id);
            assert(pre.holds_id(owner, id));
            let w = choose|w: int|
                0 <= w < pre.holder_ids(owner).len() && pre.holder_ids(owner)[w] == id;
            assert(0 <= r < pre.holder_ids(owner).len() && pre.holder_ids(owner)[r] == id);
            pre.holder_ids(owner).remove_ensures(r);
            let pi = if i < r {
                i
            } else {
                i + 1
            };
            let pj = if j < r {
                j
            } else {
                j + 1
            };
            assert(post.holder_ids(a)[i] == pre.holder_ids(a)[pi]);
            assert(post.holder_ids(a)[j] == pre.holder_ids(a)[pj]);
            assert(pre.holder_ids(a)[pi] != pre.holder_ids(a)[pj]);
        } else {
            assert(pre.holder_ids(a)[i] != pre.holder_ids(a)[j]);
        }
    }
    assert forall|x: Seq<char>|
        #[trigger] post.records().contains_key(x) && post.records()[x].creditor is Some implies
        post.credits_id(creditor_view(post.records()[x]).unwrap(), x) by {
        assert(x != id);
        assert(pre.records().contains_key(x));
        let c = creditor_view(pre.records()[x]).unwrap();
        assert(pre.credits_id(c, x));
        match creditor_view(t) {
            Some(tc) => {
                if c == tc {
                    let r = pre.creditor_ids(tc).index_of(id);
                    assert(pre.credits_id(tc, id));
                    let w = choose|w: int|
                        0 <= w < pre.creditor_ids(tc).len() && pre.creditor_ids(tc)[w] == id;
                    assert(0 <= r < pre.creditor_ids(tc).len() && pre.creditor_ids(tc)[r] == id);
                    pre.creditor_ids(tc).remove_ensures(r);
                    let k = choose|k: int|
                        0 <= k < pre.creditor_ids(tc).len() && pre.creditor_ids(tc)[k] == x;
                    assert(k != r);
                    if k < r {
                        assert(post.creditor_ids(tc)[k] == x);
                    } else {
                        assert(post.creditor_ids(tc)[k - 1] == x);
                    }
                }
            },
            None => {},
        }
    }
    assert forall|a: Seq<char>, i: int| 0 <= i < post.creditor_ids(a).len() implies {
        &&& post.records().contains_key(#[trigger] post.creditor_ids(a)[i])
        &&& creditor_view(post.records()[post.creditor_ids(a)[i]]) == Some(a)
    } by {
        let x = post.creditor_ids(a)[i];
        assert(post.credits_id(a, x));
        assert(x != id);
        match creditor_view(t) {
            Some(tc) => {
                if a == tc {
                    let r = pre.creditor_ids(tc).index_of(id);
                    assert(pre.credits_id(tc, id));
                    let w = choose|w: int|
                        0 <= w < pre.creditor_ids(tc).len() && pre.creditor_ids(tc)[w] == id;
                    assert(0 <= r < pre.creditor_ids(tc).len() && pre.creditor_ids(tc)[r] == id);
                    pre.creditor_ids(tc).remove_ensures(r);
                    if i < r {
                        assert(x == pre.creditor_ids(a)[i]);
                    } else {
                        assert(x == pre.creditor_ids(a)[i + 1]);
                    }
                } else {
                    assert(x == pre.creditor_ids(a)[i]);
                }
            },
            None => {
                assert(x == pre.creditor_ids(a)[i]);
            },
        }
        assert(pre.records().contains_key(x) && creditor_view(pre.records()[x]) == Some(a));
        assert(post.records().contains_key(x));
    }
    assert forall|a: Seq<char>, i: int, j: int| 0 <= i < j < post.creditor_ids(a).len() implies
        #[trigger] post.creditor_ids(a)[i] != #[trigger] post.creditor_ids(a)[j] by {
        match creditor_view(t) {
            Some(tc) => {
                if a == tc {
                    let r = pre.creditor_ids(tc).index_of(id);
                    assert(pre.credits_id(tc, id));
                    let w = choose|w: int|
                        0 <= w < pre.creditor_ids(tc).len() && pre.creditor_ids(tc)[w] == id;
                    assert(0 <= r < pre.creditor_ids(tc).len() && pre.creditor_ids(tc)[r] == id);
                    pre.creditor_ids(tc).remove_ensures(r);
                    let pi = if i < r {
                        i
                    } else {
                        i + 1
                    };
                    let pj = if j < r {
                        j
                    } else {
                        j + 1
                    };
                    assert(post.creditor_ids(a)[i] == pre.creditor_ids(a)[pi]);
                    assert(post.creditor_ids(a)[j] == pre.creditor_ids(a)[pj]);
                    assert(pre.creditor_ids(a)[pi] != pre.creditor_ids(a)[pj]);
                } else {
                    assert(pre.creditor_ids(a)[i] != pre.creditor_ids(a)[j]);
                }
            },
            None => {
                assert(pre.creditor_ids(a)[i] != pre.creditor_ids(a)[j]);
            },
        }
    }
}

impl Contract {
    /// What finalizing `id` decides for caller `caller`: only the market's
    /// own holding identity may finalize; not-found when the reverse map
    /// does not know the item; a consistency error unless the record is in
    /// a pre-terminal transfer state with a creditor present, or in
    /// `Return` with none. `Ok` exactly otherwise.
    pub open spec fn remove_outcome(&self, caller: Seq<char>, id: Seq<char>) -> Result<
        (),
        MarketError,
    > {
        if caller != self.holding_account() {
            Err(MarketError::Unauthorized)
        } else if self.locker_of(id) is None {
            Err(MarketError::TokenNotFound)
        } else {
            let t = self.records()[id];
            if (t.creditor is Some && (t.state == LockedTokenState::TransferToCreditor || t.state
                == LockedTokenState::TransferToBorrower)) || (t.creditor is None && t.state
                == LockedTokenState::Return) {
                Ok(())
            } else {
                Err(MarketError::StateConflict)
            }
        }
    }

    /// Finalizes `token_id` once the external registry has confirmed that
    /// custody actually moved: deletes the record, its reverse-map entry,
    /// its holder-index entry and — when financed — its creditor-index
    /// entry. Restricted to the market's own holding identity; the record
    /// must be in a pre-terminal state with a creditor present, or in
    /// `Return` with none. On any failure nothing changes.
    pub fn remove_transferred_token_from_locked_tokens(
        &mut self,
        caller_id: &String,
        token_id: String,
    ) -> (r: Result<(), MarketError>)
        requires
            old(self).wf(),
        ensures
            final(self).wf(),
            r == old(self).remove_outcome(caller_id@, token_id@),
            r is Ok ==> remove_effect(*old(self), *final(self), token_id@),
            r is Err ==> *final(self) == *old(self),
    {
        if !(*caller_id == self.owner_id) {
            return Err(MarketError::Unauthorized);
        }
        let init_owner = match self.nft_locker_by_token_id.get(token_id.as_str()) {
            Some(o) => o.clone(),
            None => {
                return Err(MarketError::TokenNotFound);
            },
        };
        let token = match self.token_id_to_locked_token.get(token_id.as_str()) {
            Some(t) => t.clone(),
            None => {
                proof {
                    assert(false);
                }
                return Err(MarketError::TokenNotFound);
            },
        };
        let settled = match &token.creditor {
            Some(_) => token.state == LockedTokenState::TransferToCreditor || token.state
                == LockedTokenState::TransferToBorrower,
            None => token.state == LockedTokenState::Return,
        };
        if !settled {
            return Err(MarketError::StateConflict);
        }
        let ghost pre = *self;
        let owner_ids = self.get_tokens_stored_per_owner(&init_owner);
        let idx = match vec_index_of_id(&owner_ids, &token_id) {
            Some(i) => i,
            None => {
                proof {
                    assert(pre.holds_id(init_owner@, token_id@));
                    assert(false);
                }
                return Err(MarketError::TokenNotFound);
            },
        };
        let mut owner_ids = owner_ids;
        let ghost owner_ids0 = owner_ids;
        owner_ids.remove(idx);
        proof {
            lemma_removed_vec_deep_view(owner_ids0, owner_ids, idx as int);
            let s = pre.holder_ids(init_owner@);
            lemma_distinct_remove_not_contains(s, idx as int, token_id@);
            assert(s.index_of(token_id@) == idx as int) by {
                let c = s.index_of(token_id@);
                assert(s[idx as int] == token_id@);
                assert(0 <= c < s.len() && s[c] == token_id@);
            }
        }
        self.tokens_stored_per_owner.insert(init_owner.clone(), owner_ids);
        match &token.creditor {
            Some(c) => {
                proof {
                    assert(creditor_view(pre.records()[token_id@]) == Some(c@));
                    assert(pre.credits_id(c@, token_id@));
                }
                let cred_ids = self.get_tokens_for_lent_money(c);
                let cidx = match vec_index_of_id(&cred_ids, &token_id) {
                    Some(i) => i,
                    None => {
                        proof {
                            assert(false);
                        }
                        return Err(MarketError::TokenNotFound);
                    },
                };
                let mut cred_ids = cred_ids;
                let ghost cred_ids0 = cred_ids;
                cred_ids.remove(cidx);
                proof {
                    lemma_removed_vec_deep_view(cred_ids0, cred_ids, cidx as int);
                    let s = pre.creditor_ids(c@);
                    lemma_distinct_remove_not_contains(s, cidx as int, token_id@);
                    assert(s.index_of(token_id@) == cidx as int) by {
                        let cc = s.index_of(token_id@);
                        assert(s[cidx as int] == token_id@);
                        assert(0 <= cc < s.len() && s[cc] == token_id@);
                    }
                }
                self.credit_tokens_per_creditor.insert(c.clone(), cred_ids);
            },
            None => {
                proof {
                    lemma_unfinanced_not_in_creditor_index(pre, token_id@);
                }
            },
        }
        self.nft_locker_by_token_id.remove(token_id.as_str());
        self.token_id_to_locked_token.remove(token_id.as_str());
        proof {
            let post = *self;
            let id = token_id@;
            let owner = pre.records()[id].owner_id@;
            assert forall|a: Seq<char>| !post.holds_id(a, id) by {
                if a == owner {
                } else {
                    if pre.holds_id(a, id) {
                        lemma_holds_id_record(pre, a, id);
                    }
                }
            }
            assert forall|a: Seq<char>| !post.credits_id(a, id) by {
                match creditor_view(pre.records()[id]) {
                    Some(tc) => {
                        assert(!post.creditor_ids(tc).contains(id));
                        if a == tc {
                        } else {
                            assert(post.creditor_ids(a) == pre.creditor_ids(a));
                            if pre.credits_id(a, id) {
                                lemma_credits_id_record(pre, a, id);
                            }
                            assert(!pre.credits_id(a, id));
                        }
                    },
                    None => {
                        assert(post.creditor_ids(a) == pre.creditor_ids(a));
                        assert(!pre.credits_id(a, id));
                    },
                }
            }
            assert(remove_effect(pre, post, id));
            lemma_remove_preserves_wf(pre, post, id);
        }
        Ok(())
    }
}

/// Relies on `String::push_str`: it appends the slice's characters to the
/// string, leaving `old(s)@ + part@`.
#[verifier::external_body]
fn append_part(s: &mut String, part: &str)
    ensures
        final(s)@ == old(s)@ + part@,
{
    s.push_str(part);
}

/// The market-wide identifier of a listed item: the registry's own token
/// identifier qualified by the registry account it lives on.
pub open spec fn spec_unique_id(token_id: Seq<char>, market: Seq<char>) -> Seq<char> {
    token_id + ":"@ + market
}

/// The freshly listed record for `uid`: posted by `owner`, carrying the
/// given terms, unfinanced, in `Sale`.
pub open spec fn listed_record(
    t: LockedToken,
    uid: Seq<char>,
    owner: Seq<char>,
    terms: ListingTerms,
) -> bool {
    &&& t.token_id@ == uid
    &&& t.owner_id@ == owner
    &&& t.duration == terms.borrow_duration
    &&& t.borrowed_money@ == terms.borrowed_money@
    &&& t.apr == terms.apr
    &&& t.creditor is None
    &&& t.start_time is None
    &&& t.extra@ == terms.extra@
    &&& t.market_type@ == terms.market_type@
    &&& t.state == LockedTokenState::Sale
}

/// The whole effect of listing item `uid` for holder `owner`: exactly one
/// new record exists, the item is appended to the holder's index entry and
/// to the reverse map, it is in no creditor-index entry, and everything
/// else stays as it was.
pub open spec fn listing_effect(
    pre: Contract,
    post: Contract,
    uid: Seq<char>,
    owner: Seq<char>,
) -> bool {
    &&& !pre.records().contains_key(uid)
    &&& post.records().contains_key(uid)
    &&& post.records() == pre.records().insert(uid, post.records()[uid])
    &&& post.holder_ids(owner) == pre.holder_ids(owner).push(uid)
    &&& forall|a: Seq<char>| a != owner ==> #[trigger] post.holder_ids(a) == pre.holder_ids(a)
    &&& post.has_holder_entry(owner)
    &&& forall|a: Seq<char>| a != owner ==> #[trigger] post.has_holder_entry(a)
        == pre.has_holder_entry(a)
    &&& post.locker_of(uid) == Some(owner)
    &&& forall|x: Seq<char>| x != uid ==> #[trigger] post.locker_of(x) == pre.locker_of(x)
    &&& forall|a: Seq<char>| #[trigger] post.creditor_ids(a) == pre.creditor_ids(a)
    &&& forall|a: Seq<char>| !post.credits_id(a, uid)
    &&& post.account_list() == (if pre.has_holder_entry(owner) {
        pre.account_list()
    } else {
        pre.account_list().push(owner)
    })
    &&& post.holding_account() == pre.holding_account()
}

/// Listing a fresh item keeps the ledger well-formed.
proof fn lemma_listing_preserves_wf(
    pre: Contract,
    post: Contract,
    uid: Seq<char>,
    owner: Seq<char>,
)
    requires
        pre.wf(),
        listing_effect(pre, post, uid, owner),
        post.records()[uid].token_id@ == uid,
        post.records()[uid].owner_id@ == owner,
        post.records()[uid].creditor is None,
        post.records()[uid].start_time is None,
        post.records()[uid].state == LockedTokenState::Sale,
    ensures
        post.wf(),
{
    let t1 = post.records()[uid];
    assert forall|x: Seq<char>| #[trigger] post.records().contains_key(x) implies
        post.records()[x].token_id@ == x && token_coherent(post.records()[x]) by {
        if x != uid {
            assert(pre.records().contains_key(x));
            assert(post.records()[x] == pre.records()[x]);
        }
    }
    assert forall|x: Seq<char>| #[trigger] post.records().contains_key(x) implies post.locker_of(x)
        == Some(post.records()[x].owner_id@) by {
        if x != uid {
            assert(pre.records().contains_key(x));
        }
    }
    assert forall|x: Seq<char>| (#[trigger] post.locker_of(x)) is Some implies
        post.records().contains_key(x) by {
        if x != uid {
            assert(pre.locker_of(x) == post.locker_of(x));
        }
    }
    assert forall|x: Seq<char>| #[trigger] post.records().contains_key(x) implies post.holds_id(
        post.records()[x].owner_id@,
        x,
    ) by {
        if x == uid {
            assert(post.holder_ids(owner)[post.holder_ids(owner).len() - 1] == uid);
        } else {
            assert(pre.records().contains_key(x));
            let ax = pre.records()[x].owner_id@;
            assert(pre.holds_id(ax, x));
            if ax == owner {
                let k = choose|k: int|
                    0 <= k < pre.holder_ids(owner).len() && pre.holder_ids(owner)[k] == x;
                assert(post.holder_ids(owner)[k] == x);
            }
        }
    }
    assert forall|a: Seq<char>, i: int| 0 <= i < post.holder_ids(a).len() implies {
        &&& post.records().contains_key(#[trigger] post.holder_ids(a)[i])
        &&& post.records()[post.holder_ids(a)[i]].owner_id@ == a
    } by {
        if a == owner && i == post.holder_ids(a).len() - 1 {
            assert(post.holder_ids(a)[i] == uid);
        } else {
            assert(post.holder_ids(a)[i] == pre.holder_ids(a)[i]);
            let x = pre.holder_ids(a)[i];
            assert(pre.records().contains_key(x));
            assert(pre.records()[x].owner_id@ == a);
            assert(x != uid);
        }
    }
    assert forall|a: Seq<char>, i: int, j: int| 0 <= i < j < post.holder_ids(a).len() implies
        #[trigger] post.holder_ids(a)[i] != #[trigger] post.holder_ids(a)[j] by {
        if a == owner {
            if j == post.holder_ids(a).len() - 1 {
                assert(post.holder_ids(a)[i] == pre.holder_ids(a)[i]);
                assert(post.holder_ids(a)[j] == uid);
                assert(pre.records().contains_key(pre.holder_ids(a)[i]));
            } else {
                assert(post.holder_ids(a)[i] == pre.holder_ids(a)[i]);
                assert(post.holder_ids(a)[j] == pre.holder_ids(a)[j]);
            }
        } else {
            assert(post.holder_ids(a) == pre.holder_ids(a));
        }
    }
    assert forall|x: Seq<char>|
        #[trigger] post.records().contains_key(x) && post.records()[x].creditor is Some implies
        post.credits_id(creditor_view(post.records()[x]).unwrap(), x) by {
        assert(x != uid);
        assert(pre.records().contains_key(x));
        if pre.records()[x].creditor is Some {
            assert(pre.credits_id(creditor_view(pre.records()[x]).unwrap(), x));
        }
    }
    assert forall|a: Seq<char>, i: int| 0 <= i < post.creditor_ids(a).len() implies {
        &&& post.records().contains_key(#[trigger] post.creditor_ids(a)[i])
        &&& creditor_view(post.records()[post.creditor_ids(a)[i]]) == Some(a)
    } by {
        assert(post.creditor_ids(a) == pre.creditor_ids(a));
        let x = pre.creditor_ids(a)[i];
        assert(pre.records().contains_key(x));
        assert(creditor_view(pre.records()[x]) == Some(a));
        assert(x != uid);
    }
    assert forall|a: Seq<char>, i: int, j: int| 0 <= i < j < post.creditor_ids(a).len() implies
        #[trigger] post.creditor_ids(a)[i] != #[trigger] post.creditor_ids(a)[j] by {
        assert(post.creditor_ids(a) == pre.creditor_ids(a));
        assert(pre.creditor_ids(a)[i] != pre.creditor_ids(a)[j]);
    }
    assert forall|a: Seq<char>| #[trigger] post.has_holder_entry(a) <==>
        post.account_list().contains(a) by {
        if pre.has_holder_entry(owner) {
            assert(post.account_list() == pre.account_list());
            if a != owner {
                assert(post.has_holder_entry(a) == pre.has_holder_entry(a));
            }
        } else {
            assert(post.account_list() == pre.account_list().push(owner));
            if a == owner {
                assert(post.account_list()[post.account_list().len() - 1] == owner);
            } else {
                assert(post.has_holder_entry(a) == pre.has_holder_entry(a));
                if pre.has_holder_entry(a) {
                    let k = choose|k: int|
                        0 <= k < pre.account_list().len() && pre.account_list()[k] == a;
                    assert(post.account_list()[k] == a);
                }
                if post.account_list().contains(a) {
                    let k = choose|k: int|
                        0 <= k < post.account_list().len() && post.account_list()[k] == a;
                    assert(k < pre.account_list().len());
                    assert(pre.account_list()[k] == a);
                }
            }
        }
    }
    assert forall|i: int, j: int| 0 <= i < j < post.account_list().len() implies
        #[trigger] post.account_list()[i] != #[trigger] post.account_list()[j] by {
        if pre.has_holder_entry(owner) {
            assert(post.account_list() == pre.account_list());
        } else {
            assert(post.account_list() == pre.account_list().push(owner));
            if j == post.account_list().len() - 1 {
                assert(post.account_list()[i] == pre.account_list()[i]);
                assert(post.account_list()[j] == owner);
                assert(pre.account_list().contains(pre.account_list()[i])
                    ==> !pre.has_holder_entry(owner) && pre.account_list()[i] != owner || true);
                assert(!pre.account_list().contains(owner));
            } else {
                assert(post.account_list()[i] == pre.account_list()[i]);
                assert(post.account_list()[j] == pre.account_list()[j]);
            }
        }
    }
}

impl Contract {
    /// What listing `token_id` decides: the notification's claimed holder
    /// must be the account that signed it; the duration must exceed 60
    /// seconds and the interest rate must be strictly positive; and the
    /// market-wide identifier must not already be listed — replaying a
    /// listing is a state conflict, never a duplicate record. `Ok` exactly
    /// otherwise.
    pub open spec fn listing_outcome(
        &self,
        token_id: Seq<char>,
        owner: Seq<char>,
        signer: Seq<char>,
        terms: ListingTerms,
    ) -> Result<(), MarketError> {
        if signer != owner {
            Err(MarketError::SignerMismatch)
        } else if terms.borrow_duration <= 60 {
            Err(MarketError::DurationTooShort)
        } else if terms.apr == 0 {
            Err(MarketError::NonPositiveInterest)
        } else if self.records().contains_key(spec_unique_id(token_id, terms.market@)) {
            Err(MarketError::StateConflict)
        } else {
            Ok(())
        }
    }

    /// Lists `token_id` as collateral on behalf of `owner_id`, who must be
    /// the signer of the approval notification. On success exactly one new
    /// record exists, in `Sale` with no creditor, the item appears in the
    /// holder's index entry and in no creditor-index entry, and the
    /// returned request asks the registry to move custody of the item into
    /// the market's holding account under the given approval. On any
    /// failure nothing changes.
    ///
    /// The record exists before the registry confirms the custody
    /// transfer; it is reconciled later through the finalization call.
    pub fn nft_on_approve(
        &mut self,
        token_id: String,
        owner_id: String,
        signer_id: &String,
        approval_id: String,
        terms: ListingTerms,
    ) -> (r: Result<TransferRequest, MarketError>)
        requires
            old(self).wf(),
        ensures
            final(self).wf(),
            (r is Ok) == (old(self).listing_outcome(token_id@, owner_id@, signer_id@, terms)
                is Ok),
            r matches Err(e) ==> old(self).listing_outcome(token_id@, owner_id@, signer_id@, terms)
                == Err::<(), MarketError>(e),
            r is Err ==> *final(self) == *old(self),
            r matches Ok(req) ==> ({
                let uid = spec_unique_id(token_id@, terms.market@);
                &&& listing_effect(*old(self), *final(self), uid, owner_id@)
                &&& listed_record(final(self).records()[uid], uid, owner_id@, terms)
                &&& req.registry_id@ == terms.market@
                &&& req.receiver_id@ == old(self).holding_account()
                &&& req.token_id@ == token_id@
                &&& req.approval_id@ == approval_id@
            }),
    {
        if !(*signer_id == owner_id) {
            return Err(MarketError::SignerMismatch);
        }
        if terms.borrow_duration <= 60 {
            return Err(MarketError::DurationTooShort);
        }
        if terms.apr == 0 {
            return Err(MarketError::NonPositiveInterest);
        }
        let mut unique = token_id.clone();
        append_part(&mut unique, ":");
        append_part(&mut unique, terms.market.as_str());
        proof {
            assert(unique@ == spec_unique_id(token_id@, terms.market@));
        }
        if self.token_id_to_locked_token.contains_key(unique.as_str()) {
            return Err(MarketError::StateConflict);
        }
        let ghost pre = *self;
        let mut owner_tokens = self.get_tokens_stored_per_owner(&owner_id);
        if !self.tokens_stored_per_owner.contains_key(owner_id.as_str()) {
            self.holder_accounts.push(owner_id.clone());
        }
        owner_tokens.push(unique.clone());
        let locked_token = LockedToken {
            token_id: unique.clone(),
            owner_id: owner_id.clone(),
            duration: terms.borrow_duration,
            borrowed_money: terms.borrowed_money,
            apr: terms.apr,
            creditor: None,
            start_time: None,
            extra: terms.extra,
            market_type: terms.market_type,
            state: LockedTokenState::Sale,
        };
        self.token_id_to_locked_token.insert(unique.clone(), locked_token);
        self.tokens_stored_per_owner.insert(owner_id.clone(), owner_tokens);
        self.nft_locker_by_token_id.insert(unique.clone(), owner_id.clone());
        proof {
            let post = *self;
            let uid = unique@;
            assert(post.holder_ids(owner_id@) =~= pre.holder_ids(owner_id@).push(uid));
            if pre.has_holder_entry(owner_id@) {
                assert(post.account_list() == pre.account_list());
            } else {
                assert(post.account_list() =~= pre.account_list().push(owner_id@));
            }
            lemma_unfinanced_not_in_creditor_index(pre, uid);
            assert forall|a: Seq<char>| !post.credits_id(a, uid) by {
                assert(post.creditor_ids(a) == pre.creditor_ids(a));
                assert(!pre.credits_id(a, uid));
            }
            assert(listing_effect(pre, post, uid, owner_id@));
            lemma_listing_preserves_wf(pre, post, uid, owner_id@);
        }
        Ok(TransferRequest {
            registry_id: terms.market,
            receiver_id: self.owner_id.clone(),
            token_id,
            approval_id,
        })
    }
}

impl Contract {
    /// The records listed for account `a`, in index order, restricted to
    /// those still in `Sale` unless `need_all` asks for every state.
    pub open spec fn listed_view(&self, a: Seq<char>, need_all: bool) -> Seq<LockedToken> {
        self.holder_ids(a).map_values(|id: Seq<char>| self.records()[id]).filter(
            |t: LockedToken| need_all || t.state == LockedTokenState::Sale,
        )
    }

    /// Every account's listed records in account insertion order,
    /// concatenated.
    pub open spec fn all_listed_view(&self, need_all: bool) -> Seq<LockedToken> {
        self.account_list().map_values(|a: Seq<char>| self.listed_view(a, need_all)).flatten()
    }

    /// The records financed by account `a`, in index order.
    pub open spec fn debtor_view(&self, a: Seq<char>) -> Seq<LockedToken> {
        self.creditor_ids(a).map_values(|id: Seq<char>| self.records()[id])
    }

    /// The records listed for `account_id`: all of them when `need_all`,
    /// otherwise only those still for sale.
    pub fn get_locked_tokens(&self, account_id: String, need_all: bool) -> (r: Vec<LockedToken>)
        requires
            self.wf(),
        ensures
            r@ == self.listed_view(account_id@, need_all),
    {
        let ghost p = |t: LockedToken| need_all || t.state == LockedTokenState::Sale;
        let ghost f = |id: Seq<char>| self.records()[id];
        let ghost s = self.holder_ids(account_id@);
        let ids = self.get_tokens_stored_per_owner(&account_id);
        let mut tmp: Vec<LockedToken> = Vec::new();
        let mut i: usize = 0;
        proof {
            assert(s.take(0) =~= Seq::<Seq<char>>::empty());
            assert(s.take(0).map_values(f).filter(p) =~= Seq::<LockedToken>::empty());
        }
        while i < ids.len()
            invariant
                self.wf(),
                0 <= i <= ids@.len(),
                ids.deep_view() == s,
                s == self.holder_ids(account_id@),
                f == (|id: Seq<char>| self.records()[id]),
                p == (|t: LockedToken| need_all || t.state == LockedTokenState::Sale),
                tmp@ == s.take(i as int).map_values(f).filter(p),
            decreases ids@.len() - i,
        {
            proof {
                assert(s[i as int] == ids.deep_view()[i as int]);
                assert(self.holds_id(account_id@, s[i as int]));
                lemma_holds_id_record(*self, account_id@, s[i as int]);
            }
            let cur = match self.token_id_to_locked_token.get(ids[i].as_str()) {
                Some(t) => t.clone(),
                None => {
                    proof {
                        assert(false);
                    }
                    return tmp;
                },
            };
            if need_all || cur.state == LockedTokenState::Sale {
                tmp.push(cur);
            }
            proof {
                let m0 = s.take(i as int).map_values(f);
                assert(s.take(i as int + 1) =~= s.take(i as int).push(s[i as int]));
                assert(s.take(i as int + 1).map_values(f) =~= m0.push(f(s[i as int])));
                m0.lemma_filter_push(f(s[i as int]), p);
                assert(cur == f(s[i as int]));
            }
            i = i + 1;
        }
        proof {
            assert(s.take(s.len() as int) =~= s);
        }
        tmp
    }

    /// Every account's listed records: all of them when `need_all`,
    /// otherwise only those still for sale.
    pub fn get_all_locked_tokens(&self, need_all: bool) -> (r: Vec<LockedToken>)
        requires
            self.wf(),
        ensures
            r@ == self.all_listed_view(need_all),
    {
        let ghost g = |a: Seq<char>| self.listed_view(a, need_all);
        let ghost accts = self.account_list();
        let mut all: Vec<LockedToken> = Vec::new();
        let mut i: usize = 0;
        proof {
            assert(accts.take(0) =~= Seq::<Seq<char>>::empty());
            assert(accts.take(0).map_values(g).flatten() =~= Seq::<LockedToken>::empty());
        }
        while i < self.holder_accounts.len()
            invariant
                self.wf(),
                0 <= i <= self.holder_accounts@.len(),
                accts == self.account_list(),
                g == (|a: Seq<char>| self.listed_view(a, need_all)),
                all@ == accts.take(i as int).map_values(g).flatten(),
            decreases self.holder_accounts@.len() - i,
        {
            let account = self.holder_accounts[i].clone();
            let mut part = self.get_locked_tokens(account, need_all);
            let ghost part_view = part@;
            all.append(&mut part);
            proof {
                let m0 = accts.take(i as int).map_values(g);
                assert(accts.take(i as int + 1) =~= accts.take(i as int).push(accts[i as int]));
                assert(accts.take(i as int + 1).map_values(g) =~= m0.push(g(accts[i as int])));
                m0.lemma_flatten_push(g(accts[i as int]));
                assert(part_view == g(accts[i as int]));
            }
            i = i + 1;
        }
        proof {
            assert(accts.take(accts.len() as int) =~= accts);
        }
        all
    }

    /// The records financed by `account_id`, in index order.
    pub fn get_debtors_tokens(&self, account_id: String) -> (r: Vec<LockedToken>)
        requires
            self.wf(),
        ensures
            r@ == self.debtor_view(account_id@),
    {
        let ghost f = |id: Seq<char>| self.records()[id];
        let ghost s = self.creditor_ids(account_id@);
        let ids = self.get_tokens_for_lent_money(&account_id);
        let mut tmp: Vec<LockedToken> = Vec::new();
        let mut i: usize = 0;
        proof {
            assert(s.take(0) =~= Seq::<Seq<char>>::empty());
            assert(s.take(0).map_values(f) =~= Seq::<LockedToken>::empty());
        }
        while i < ids.len()
            invariant
                self.wf(),
                0 <= i <= ids@.len(),
                ids.deep_view() == s,
                s == self.creditor_ids(account_id@),
                f == (|id: Seq<char>| self.records()[id]),
                tmp@ == s.take(i as int).map_values(f),
            decreases ids@.len() - i,
        {
            proof {
                assert(s[i as int] == ids.deep_view()[i as int]);
                assert(self.credits_id(account_id@, s[i as int]));
                lemma_credits_id_record(*self, account_id@, s[i as int]);
            }
            let cur = match self.token_id_to_locked_token.get(ids[i].as_str()) {
                Some(t) => t.clone(),
                None => {
                    proof {
                        assert(false);
                    }
                    return tmp;
                },
            };
            tmp.push(cur);
            proof {
                assert(s.take(i as int + 1) =~= s.take(i as int).push(s[i as int]));
                assert(s.take(i as int + 1).map_values(f) =~= s.take(i as int).map_values(f).push(
                    f(s[i as int]),
                ));
            }
            i = i + 1;
        }
        proof {
            assert(s.take(s.len() as int) =~= s);
        }
        tmp
    }
}

/// Copies a vector of identifiers element by element.
fn clone_id_vec(v: &Vec<String>) -> (r: Vec<String>)
    ensures
        r@ == v@,
{
    let mut r: Vec<String> = Vec::new();
    let mut i: usize = 0;
    while i < v.len()
        invariant
            0 <= i <= v@.len(),
            r@ =~= v@.take(i as int),
        decreases v@.len() - i,
    {
        r.push(v[i].clone());
        i = i + 1;
    }
    proof {
        assert(v@.take(v@.len() as int) =~= v@);
    }
    r
}

/// Finds the position of `id` in a vector of identifiers, comparing by
/// contents.
fn vec_index_of_id(v: &Vec<String>, id: &String) -> (r: Option<usize>)
    ensures
        match r {
            Some(i) => i < v@.len() && v.deep_view()[i as int] == id@,
            None => !v.deep_view().contains(id@),
        },
{
    let mut i: usize = 0;
    while i < v.len()
        invariant
            0 <= i <= v@.len(),
            forall|k: int| 0 <= k < i ==> #[trigger] v.deep_view()[k] != id@,
        decreases v@.len() - i,
    {
        if v[i] == *id {
            return Some(i);
        }
        i = i + 1;
    }
    None
}

} // verus!
