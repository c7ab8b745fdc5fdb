use nft_lending::callbacks::{process_approval_callback, PromiseOutcome};
use nft_lending::nft_to_json_converter::{JsonLockedToken, JsonToken, NonFungibleTokenToJsonConverter, TokenMetadata};
use nft_lending::parse::{parse_u128, parse_u64_bytes};
use nft_lending::storage_fees::{required_storage_bytes, settle_storage_deposit};
use nft_lending::{Contract, LockedToken, LockedTokenState, MarketError};

#[test]
fn parses_plain_decimal_principals() {
    assert_eq!(parse_u128("0"), Some(0));
    assert_eq!(parse_u128("7"), Some(7));
    assert_eq!(parse_u128("1000"), Some(1000));
    assert_eq!(parse_u128("007"), Some(7));
    assert_eq!(
        parse_u128("340282366920938463463374607431768211455"),
        Some(u128::MAX)
    );
}

#[test]
fn rejects_malformed_or_oversized_principals() {
    assert_eq!(parse_u128(""), None);
    assert_eq!(parse_u128("12a"), None);
    assert_eq!(parse_u128("-5"), None);
    assert_eq!(parse_u128("+5"), None);
    assert_eq!(parse_u128("1 0"), None);
    assert_eq!(parse_u128("340282366920938463463374607431768211456"), None);
    assert_eq!(parse_u128("9999999999999999999999999999999999999999999"), None);
}

#[test]
fn parses_decimal_byte_tokens() {
    assert_eq!(parse_u64_bytes(b"0"), Some(0));
    assert_eq!(parse_u64_bytes(b"123"), Some(123));
    assert_eq!(parse_u64_bytes(b"18446744073709551615"), Some(u64::MAX));
    assert_eq!(parse_u64_bytes(b"18446744073709551616"), None);
    assert_eq!(parse_u64_bytes(b""), None);
    assert_eq!(parse_u64_bytes(b"1x"), None);
    assert_eq!(parse_u64_bytes(b" 1"), None);
}

#[test]
fn storage_bytes_charge_overhead_plus_growth() {
    assert_eq!(required_storage_bytes(100, 50, 80), 130);
    assert_eq!(required_storage_bytes(100, 80, 80), 100);
    assert_eq!(required_storage_bytes(100, 80, 50), 100);
    assert_eq!(required_storage_bytes(0, 0, 0), 0);
}

#[test]
fn storage_settlement_refunds_the_exact_excess() {
    assert_eq!(settle_storage_deposit(1300, 130, 10), Ok(0));
    assert_eq!(settle_storage_deposit(1500, 130, 10), Ok(200));
    assert_eq!(
        settle_storage_deposit(1299, 130, 10),
        Err(MarketError::InsufficientStorageDeposit)
    );
    assert_eq!(settle_storage_deposit(5, 0, 10), Ok(5));
    // A bill that exceeds the payment type altogether can never be covered.
    assert_eq!(
        settle_storage_deposit(u128::MAX, u64::MAX, u128::MAX),
        Err(MarketError::InsufficientStorageDeposit)
    );
}

#[test]
fn approval_callback_insists_on_a_single_outcome() {
    assert_eq!(
        process_approval_callback(0, &PromiseOutcome::Failed),
        Err(MarketError::ProtocolViolation)
    );
    assert_eq!(
        process_approval_callback(2, &PromiseOutcome::Successful(b"1".to_vec())),
        Err(MarketError::ProtocolViolation)
    );
    assert_eq!(
        process_approval_callback(1, &PromiseOutcome::NotReady),
        Err(MarketError::ProtocolViolation)
    );
}

#[test]
fn approval_callback_acknowledges_either_result() {
    assert_eq!(
        process_approval_callback(1, &PromiseOutcome::Failed),
        Ok("oops!".to_string())
    );
    assert_eq!(
        process_approval_callback(1, &PromiseOutcome::Successful(b"123".to_vec())),
        Ok("Successfully received approve".to_string())
    );
    assert_eq!(
        process_approval_callback(1, &PromiseOutcome::Successful(b"not a number".to_vec())),
        Err(MarketError::ProtocolViolation)
    );
    assert_eq!(
        process_approval_callback(1, &PromiseOutcome::Successful(Vec::new())),
        Err(MarketError::ProtocolViolation)
    );
}

fn financed_token(start_time: u64, duration: u64) -> LockedToken {
    LockedToken {
        token_id: "X:registry".to_string(),
        owner_id: "alice".to_string(),
        duration,
        borrowed_money: "1000".to_string(),
        apr: 10,
        creditor: Some("bob".to_string()),
        start_time: Some(start_time),
        extra: String::new(),
        market_type: String::new(),
        state: LockedTokenState::Locked,
    }
}

#[test]
fn overdue_check_counts_whole_elapsed_seconds() {
    let c = Contract::new("market.holding".to_string());
    let sec = 1_000_000_000u64;
    let t = financed_token(5 * sec, 3600);
    assert!(!c.check_is_token_delayed(&t, 5 * sec));
    assert!(!c.check_is_token_delayed(&t, 5 * sec + 3600 * sec - 1));
    assert!(c.check_is_token_delayed(&t, 5 * sec + 3600 * sec));
    assert!(c.check_is_token_delayed(&t, u64::MAX));
}

#[test]
fn state_names_match_their_variants() {
    assert_eq!(LockedTokenState::Sale.name(), "Sale");
    assert_eq!(LockedTokenState::Return.name(), "Return");
    assert_eq!(LockedTokenState::Locked.name(), "Locked");
    assert_eq!(LockedTokenState::TransferToCreditor.name(), "TransferToCreditor");
    assert_eq!(LockedTokenState::TransferToBorrower.name(), "TransferToBorrower");
}

#[test]
fn error_messages_name_the_failure() {
    assert_eq!(
        MarketError::TokenNotFound.message(),
        "no such token is tracked by the market"
    );
    assert_eq!(
        MarketError::PaymentMismatch.message(),
        "the attached payment differs from the required amount"
    );
    assert_ne!(MarketError::StateConflict.message(), MarketError::LoanOverdue.message());
}

#[test]
fn cloned_records_keep_every_field() {
    let t = financed_token(7, 3600);
    let u = t.clone();
    assert_eq!(u.token_id, t.token_id);
    assert_eq!(u.owner_id, t.owner_id);
    assert_eq!(u.duration, t.duration);
    assert_eq!(u.borrowed_money, t.borrowed_money);
    assert_eq!(u.apr, t.apr);
    assert_eq!(u.creditor, t.creditor);
    assert_eq!(u.start_time, t.start_time);
    assert_eq!(u.state, t.state);
}

#[test]
fn the_market_exposes_no_display_projection() {
    let c = Contract::new("market.holding".to_string());
    assert!(c.nft_maybe_to_json("X:registry".to_string()).is_none());
}

#[test]
fn display_projections_carry_their_fields() {
    let json = JsonToken {
        token_id: "X:registry".to_string(),
        owner_id: "alice".to_string(),
        metadata: TokenMetadata {
            title: Some("A painting".to_string()),
            description: None,
            media: Some("ipfs://cid".to_string()),
            copies: Some(1),
            extra: None,
        },
        approved_account_ids: vec![("market.holding".to_string(), 7)],
    };
    let paired = JsonLockedToken {
        json_token: json,
        locked_token: financed_token(5, 3600),
    };
    assert_eq!(paired.json_token.token_id, paired.locked_token.token_id);
    assert_eq!(paired.json_token.metadata.title, Some("A painting".to_string()));
    assert_eq!(paired.json_token.approved_account_ids[0].1, 7);
}
