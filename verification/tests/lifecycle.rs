use nft_lending::{Contract, ListingTerms, LockedTokenState, MarketError};

const SEC: u64 = 1_000_000_000;

fn terms(market: &str, principal: &str, apr: u64, duration: u64) -> ListingTerms {
    ListingTerms {
        market: market.to_string(),
        borrowed_money: principal.to_string(),
        apr,
        borrow_duration: duration,
        extra: "extra".to_string(),
        market_type: "art".to_string(),
    }
}

fn market() -> Contract {
    Contract::new("market.holding".to_string())
}

fn listed_market() -> (Contract, String) {
    let mut c = market();
    let signer = "alice".to_string();
    let r = c.nft_on_approve(
        "X".to_string(),
        "alice".to_string(),
        &signer,
        "7".to_string(),
        terms("registry", "1000", 10, 3600),
    );
    assert!(r.is_ok());
    (c, "X:registry".to_string())
}

#[test]
fn listing_creates_exactly_one_sale_record() {
    let (c, uid) = listed_market();
    let all = c.get_all_locked_tokens(true);
    assert_eq!(all.len(), 1);
    assert_eq!(all[0].token_id, uid);
    assert_eq!(all[0].owner_id, "alice".to_string());
    assert_eq!(all[0].state, LockedTokenState::Sale);
    assert_eq!(all[0].creditor, None);
    assert_eq!(all[0].start_time, None);
    assert_eq!(all[0].borrowed_money, "1000".to_string());
    assert_eq!(all[0].apr, 10);
    assert_eq!(all[0].duration, 3600);
    let held = c.get_tokens_stored_per_owner(&"alice".to_string());
    assert_eq!(held, vec![uid.clone()]);
    assert!(c.get_tokens_for_lent_money(&"alice".to_string()).is_empty());
    assert!(c.get_tokens_for_lent_money(&"bob".to_string()).is_empty());
}

#[test]
fn listing_request_targets_the_holding_account() {
    let mut c = market();
    let signer = "alice".to_string();
    let req = c
        .nft_on_approve(
            "X".to_string(),
            "alice".to_string(),
            &signer,
            "42".to_string(),
            terms("registry", "1000", 10, 3600),
        )
        .unwrap();
    assert_eq!(req.registry_id, "registry".to_string());
    assert_eq!(req.receiver_id, "market.holding".to_string());
    assert_eq!(req.token_id, "X".to_string());
    assert_eq!(req.approval_id, "42".to_string());
}

#[test]
fn listing_rejects_short_duration() {
    let mut c = market();
    let signer = "alice".to_string();
    let r = c.nft_on_approve(
        "X".to_string(),
        "alice".to_string(),
        &signer,
        "7".to_string(),
        terms("registry", "1000", 10, 60),
    );
    assert_eq!(r.err(), Some(MarketError::DurationTooShort));
    assert!(c.get_all_locked_tokens(true).is_empty());
}

#[test]
fn listing_rejects_zero_interest() {
    let mut c = market();
    let signer = "alice".to_string();
    let r = c.nft_on_approve(
        "X".to_string(),
        "alice".to_string(),
        &signer,
        "7".to_string(),
        terms("registry", "1000", 0, 3600),
    );
    assert_eq!(r.err(), Some(MarketError::NonPositiveInterest));
}

#[test]
fn listing_rejects_spoofed_holder() {
    let mut c = market();
    let signer = "mallory".to_string();
    let r = c.nft_on_approve(
        "X".to_string(),
        "alice".to_string(),
        &signer,
        "7".to_string(),
        terms("registry", "1000", 10, 3600),
    );
    assert_eq!(r.err(), Some(MarketError::SignerMismatch));
}

#[test]
fn relisting_the_same_item_is_a_state_conflict() {
    let (mut c, _uid) = listed_market();
    let signer = "alice".to_string();
    let r = c.nft_on_approve(
        "X".to_string(),
        "alice".to_string(),
        &signer,
        "8".to_string(),
        terms("registry", "2000", 5, 7200),
    );
    assert_eq!(r.err(), Some(MarketError::StateConflict));
    assert_eq!(c.get_all_locked_tokens(true).len(), 1);
}

#[test]
fn financing_with_wrong_payment_fails_and_changes_nothing() {
    let (mut c, uid) = listed_market();
    let bob = "bob".to_string();
    for bad in [0u128, 999, 1001, u128::MAX] {
        let r = c.transfer_deposit_for_nft(&bob, bad, 5 * SEC, uid.clone());
        assert_eq!(r.err(), Some(MarketError::PaymentMismatch));
        let all = c.get_all_locked_tokens(true);
        assert_eq!(all.len(), 1);
        assert_eq!(all[0].state, LockedTokenState::Sale);
        assert_eq!(all[0].creditor, None);
        assert_eq!(all[0].start_time, None);
        assert!(c.get_tokens_for_lent_money(&bob).is_empty());
    }
}

#[test]
fn financing_by_the_holder_is_rejected() {
    let (mut c, uid) = listed_market();
    let alice = "alice".to_string();
    let r = c.transfer_deposit_for_nft(&alice, 1000, 5 * SEC, uid);
    assert_eq!(r.err(), Some(MarketError::Unauthorized));
}

#[test]
fn financing_an_unknown_item_is_not_found() {
    let (mut c, _uid) = listed_market();
    let bob = "bob".to_string();
    let r = c.transfer_deposit_for_nft(&bob, 1000, 5 * SEC, "Y:registry".to_string());
    assert_eq!(r.err(), Some(MarketError::TokenNotFound));
}

#[test]
fn financing_locks_the_record_and_forwards_the_principal() {
    let (mut c, uid) = listed_market();
    let bob = "bob".to_string();
    let pay = c.transfer_deposit_for_nft(&bob, 1000, 5 * SEC, uid.clone()).unwrap();
    assert_eq!(pay.receiver_id, "alice".to_string());
    assert_eq!(pay.amount, 1000);
    let all = c.get_all_locked_tokens(true);
    assert_eq!(all.len(), 1);
    assert_eq!(all[0].state, LockedTokenState::Locked);
    assert_eq!(all[0].creditor, Some("bob".to_string()));
    assert_eq!(all[0].start_time, Some(5 * SEC));
    assert_eq!(c.get_tokens_for_lent_money(&bob), vec![uid.clone()]);
    let debts = c.get_debtors_tokens("bob".to_string());
    assert_eq!(debts.len(), 1);
    assert_eq!(debts[0].token_id, uid);
}

#[test]
fn financing_twice_is_a_state_conflict() {
    let (mut c, uid) = listed_market();
    let bob = "bob".to_string();
    let carol = "carol".to_string();
    c.transfer_deposit_for_nft(&bob, 1000, 5 * SEC, uid.clone()).unwrap();
    let r = c.transfer_deposit_for_nft(&carol, 1000, 6 * SEC, uid);
    assert_eq!(r.err(), Some(MarketError::StateConflict));
}

#[test]
fn reclaim_before_the_deadline_fails_and_after_succeeds() {
    let (mut c, uid) = listed_market();
    let bob = "bob".to_string();
    let t0 = 5 * SEC;
    c.transfer_deposit_for_nft(&bob, 1000, t0, uid.clone()).unwrap();
    let r = c.check_transfer_overdue_nft_to_creditor(&bob, t0, uid.clone());
    assert_eq!(r.err(), Some(MarketError::NotYetOverdue));
    let r = c.check_transfer_overdue_nft_to_creditor(&bob, t0 + 3600 * SEC - 1, uid.clone());
    assert_eq!(r.err(), Some(MarketError::NotYetOverdue));
    let r = c.check_transfer_overdue_nft_to_creditor(&bob, t0 + 3600 * SEC, uid.clone());
    assert!(r.is_ok());
    let all = c.get_all_locked_tokens(true);
    assert_eq!(all[0].state, LockedTokenState::TransferToCreditor);
}

#[test]
fn reclaim_by_someone_who_did_not_finance_is_not_found() {
    let (mut c, uid) = listed_market();
    let bob = "bob".to_string();
    let carol = "carol".to_string();
    let t0 = 5 * SEC;
    c.transfer_deposit_for_nft(&bob, 1000, t0, uid.clone()).unwrap();
    let r = c.check_transfer_overdue_nft_to_creditor(&carol, t0 + 4000 * SEC, uid);
    assert_eq!(r.err(), Some(MarketError::TokenNotFound));
}

#[test]
fn repay_with_wrong_amount_fails_and_exact_amount_succeeds() {
    let (mut c, uid) = listed_market();
    let alice = "alice".to_string();
    let bob = "bob".to_string();
    let t0 = 5 * SEC;
    c.transfer_deposit_for_nft(&bob, 1000, t0, uid.clone()).unwrap();
    for bad in [0u128, 1000, 1099, 1101, u128::MAX] {
        let r = c.repay_loan(&alice, bad, t0 + 10 * SEC, uid.clone());
        assert_eq!(r.err(), Some(MarketError::PaymentMismatch));
        assert_eq!(c.get_all_locked_tokens(true)[0].state, LockedTokenState::Locked);
    }
    let pay = c.repay_loan(&alice, 1100, t0 + 10 * SEC, uid.clone()).unwrap();
    assert_eq!(pay.receiver_id, "bob".to_string());
    assert_eq!(pay.amount, 1100);
    assert_eq!(c.get_all_locked_tokens(true)[0].state, LockedTokenState::TransferToBorrower);
}

#[test]
fn repayment_interest_truncates_toward_zero() {
    let mut c = market();
    let signer = "alice".to_string();
    c.nft_on_approve(
        "X".to_string(),
        "alice".to_string(),
        &signer,
        "7".to_string(),
        terms("registry", "999", 10, 3600),
    )
    .unwrap();
    let uid = "X:registry".to_string();
    let alice = "alice".to_string();
    let bob = "bob".to_string();
    let t0 = 5 * SEC;
    c.transfer_deposit_for_nft(&bob, 999, t0, uid.clone()).unwrap();
    // 999 * 10 / 100 truncates to 99, so 1098 repays and 1099 does not.
    let r = c.repay_loan(&alice, 1099, t0 + SEC, uid.clone());
    assert_eq!(r.err(), Some(MarketError::PaymentMismatch));
    let pay = c.repay_loan(&alice, 1098, t0 + SEC, uid).unwrap();
    assert_eq!(pay.amount, 1098);
}

#[test]
fn repay_after_the_deadline_is_refused() {
    let (mut c, uid) = listed_market();
    let alice = "alice".to_string();
    let bob = "bob".to_string();
    let t0 = 5 * SEC;
    c.transfer_deposit_for_nft(&bob, 1000, t0, uid.clone()).unwrap();
    let r = c.repay_loan(&alice, 1100, t0 + 3600 * SEC, uid);
    assert_eq!(r.err(), Some(MarketError::LoanOverdue));
}

#[test]
fn repay_of_an_unfinanced_listing_is_a_state_conflict() {
    let (mut c, uid) = listed_market();
    let alice = "alice".to_string();
    let r = c.repay_loan(&alice, 1100, 10 * SEC, uid);
    assert_eq!(r.err(), Some(MarketError::StateConflict));
}

#[test]
fn cancel_returns_the_listing_and_only_for_the_holder() {
    let (mut c, uid) = listed_market();
    let bob = "bob".to_string();
    let alice = "alice".to_string();
    let r = c.transfer_nft_back(&bob, uid.clone());
    assert_eq!(r.err(), Some(MarketError::TokenNotFound));
    let r = c.transfer_nft_back(&alice, uid.clone());
    assert!(r.is_ok());
    assert_eq!(c.get_all_locked_tokens(true)[0].state, LockedTokenState::Return);
    let r = c.transfer_nft_back(&alice, uid);
    assert_eq!(r.err(), Some(MarketError::StateConflict));
}

#[test]
fn finalization_requires_a_pre_terminal_state() {
    let (mut c, uid) = listed_market();
    let holding = "market.holding".to_string();
    let r = c.remove_transferred_token_from_locked_tokens(&holding, uid.clone());
    assert_eq!(r.err(), Some(MarketError::StateConflict));
    let bob = "bob".to_string();
    c.transfer_deposit_for_nft(&bob, 1000, 5 * SEC, uid.clone()).unwrap();
    let r = c.remove_transferred_token_from_locked_tokens(&holding, uid);
    assert_eq!(r.err(), Some(MarketError::StateConflict));
}

#[test]
fn finalization_is_restricted_to_the_holding_account() {
    let (mut c, uid) = listed_market();
    let alice = "alice".to_string();
    c.transfer_nft_back(&alice, uid.clone()).unwrap();
    let r = c.remove_transferred_token_from_locked_tokens(&alice, uid);
    assert_eq!(r.err(), Some(MarketError::Unauthorized));
}

#[test]
fn finalization_from_return_deletes_everything() {
    let (mut c, uid) = listed_market();
    let alice = "alice".to_string();
    let holding = "market.holding".to_string();
    c.transfer_nft_back(&alice, uid.clone()).unwrap();
    c.remove_transferred_token_from_locked_tokens(&holding, uid.clone()).unwrap();
    assert!(c.get_all_locked_tokens(true).is_empty());
    assert!(c.get_tokens_stored_per_owner(&alice).is_empty());
    let r = c.remove_transferred_token_from_locked_tokens(&holding, uid);
    assert_eq!(r.err(), Some(MarketError::TokenNotFound));
}

#[test]
fn finalization_from_transfer_to_borrower_deletes_everything() {
    let (mut c, uid) = listed_market();
    let alice = "alice".to_string();
    let bob = "bob".to_string();
    let holding = "market.holding".to_string();
    let t0 = 5 * SEC;
    c.transfer_deposit_for_nft(&bob, 1000, t0, uid.clone()).unwrap();
    c.repay_loan(&alice, 1100, t0 + SEC, uid.clone()).unwrap();
    c.remove_transferred_token_from_locked_tokens(&holding, uid.clone()).unwrap();
    assert!(c.get_all_locked_tokens(true).is_empty());
    assert!(c.get_tokens_stored_per_owner(&alice).is_empty());
    assert!(c.get_tokens_for_lent_money(&bob).is_empty());
    let r = c.remove_transferred_token_from_locked_tokens(&holding, uid);
    assert_eq!(r.err(), Some(MarketError::TokenNotFound));
}

#[test]
fn end_to_end_repayment_scenario() {
    let mut c = market();
    let signer = "A".to_string();
    c.nft_on_approve(
        "X".to_string(),
        "A".to_string(),
        &signer,
        "1".to_string(),
        terms("registry", "1000", 10, 3600),
    )
    .unwrap();
    let uid = "X:registry".to_string();
    let a = "A".to_string();
    let b = "B".to_string();
    let holding = "market.holding".to_string();
    let t0 = 100 * SEC;
    c.transfer_deposit_for_nft(&b, 1000, t0, uid.clone()).unwrap();
    let locked = &c.get_locked_tokens("A".to_string(), true)[0];
    assert_eq!(locked.state, LockedTokenState::Locked);
    assert_eq!(locked.creditor, Some("B".to_string()));
    let pay = c.repay_loan(&a, 1100, t0 + 1800 * SEC, uid.clone()).unwrap();
    assert_eq!(pay.receiver_id, "B".to_string());
    assert_eq!(pay.amount, 1100);
    assert_eq!(
        c.get_locked_tokens("A".to_string(), true)[0].state,
        LockedTokenState::TransferToBorrower
    );
    c.remove_transferred_token_from_locked_tokens(&holding, uid.clone()).unwrap();
    assert!(c.get_locked_tokens("A".to_string(), true).is_empty());
    assert!(c.get_tokens_stored_per_owner(&a).is_empty());
    assert!(c.get_tokens_for_lent_money(&b).is_empty());
}

#[test]
fn end_to_end_forfeit_scenario() {
    let mut c = market();
    let signer = "A".to_string();
    c.nft_on_approve(
        "X".to_string(),
        "A".to_string(),
        &signer,
        "1".to_string(),
        terms("registry", "1000", 10, 3600),
    )
    .unwrap();
    let uid = "X:registry".to_string();
    let b = "B".to_string();
    let holding = "market.holding".to_string();
    let t0 = 100 * SEC;
    c.transfer_deposit_for_nft(&b, 1000, t0, uid.clone()).unwrap();
    c.check_transfer_overdue_nft_to_creditor(&b, t0 + 3600 * SEC, uid.clone()).unwrap();
    assert_eq!(
        c.get_locked_tokens("A".to_string(), true)[0].state,
        LockedTokenState::TransferToCreditor
    );
    c.remove_transferred_token_from_locked_tokens(&holding, uid.clone()).unwrap();
    assert!(c.get_all_locked_tokens(true).is_empty());
    assert!(!c.get_tokens_for_lent_money(&b).contains(&uid));
    assert!(c.get_tokens_for_lent_money(&b).is_empty());
}

#[test]
fn listing_queries_filter_by_state() {
    let mut c = market();
    let alice = "alice".to_string();
    let bob = "bob".to_string();
    c.nft_on_approve(
        "X".to_string(),
        "alice".to_string(),
        &alice,
        "1".to_string(),
        terms("registry", "1000", 10, 3600),
    )
    .unwrap();
    c.nft_on_approve(
        "Y".to_string(),
        "alice".to_string(),
        &alice,
        "2".to_string(),
        terms("registry", "500", 5, 7200),
    )
    .unwrap();
    c.nft_on_approve(
        "Z".to_string(),
        "carol".to_string(),
        &"carol".to_string(),
        "3".to_string(),
        terms("registry", "42", 1, 600),
    )
    .unwrap();
    c.transfer_deposit_for_nft(&bob, 500, 5 * SEC, "Y:registry".to_string()).unwrap();
    let for_sale = c.get_locked_tokens("alice".to_string(), false);
    assert_eq!(for_sale.len(), 1);
    assert_eq!(for_sale[0].token_id, "X:registry".to_string());
    let every = c.get_locked_tokens("alice".to_string(), true);
    assert_eq!(every.len(), 2);
    let all = c.get_all_locked_tokens(false);
    assert_eq!(all.len(), 2);
    let all = c.get_all_locked_tokens(true);
    assert_eq!(all.len(), 3);
}
