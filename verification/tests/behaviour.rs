use octopus::errors::AccountError;
use octopus::matching::MatchingEngine;
use octopus::trading_platform::TradingPlatform;
use octopus::tx::Tx;
use octopus::types::{Order, PartialOrder, Side};

/// Settlement accounting: matched trades move funds and journal the
/// withdrawal before the deposit, in submission order.
#[test]
fn test_settlement_journal_order() {
    let mut platform = TradingPlatform::new();
    platform.deposit("ALICE", 100).unwrap();
    platform.deposit("BOB", 100).unwrap();

    platform
        .order(Order {
            price: 10,
            amount: 2,
            side: Side::Sell,
            signer: "ALICE".to_string(),
        })
        .unwrap();
    platform
        .order(Order {
            price: 10,
            amount: 2,
            side: Side::Buy,
            signer: "BOB".to_string(),
        })
        .unwrap();

    assert_eq!(platform.balance_of("ALICE"), Ok(120));
    assert_eq!(platform.balance_of("BOB"), Ok(80));
    assert_eq!(
        platform.transactions,
        vec![
            Tx::Deposit { account: "ALICE".to_string(), amount: 100 },
            Tx::Deposit { account: "BOB".to_string(), amount: 100 },
            Tx::Withdraw { account: "BOB".to_string(), amount: 20 },
            Tx::Deposit { account: "ALICE".to_string(), amount: 20 },
        ]
    );
}

/// Round trip, first order larger: the later buy trades the smaller amount
/// and the sell side retains the difference.
#[test]
fn test_round_trip_first_order_larger() {
    let mut engine = MatchingEngine::new();
    engine
        .process(Order { price: 10, amount: 5, side: Side::Sell, signer: "ALICE".to_string() })
        .unwrap();
    let receipt = engine
        .process(Order { price: 10, amount: 3, side: Side::Buy, signer: "BOB".to_string() })
        .unwrap();

    // min(5, 3) = 3 units trade; the record reports the pre-trade amount 5
    // and the residual 2.
    assert_eq!(
        receipt.matches,
        vec![PartialOrder {
            price: 10,
            amount: 5,
            remaining: 2,
            side: Side::Sell,
            signer: "ALICE".to_string(),
            ordinal: 1
        }]
    );
    assert_eq!(engine.asks.len(), 1);
    assert!(engine.bids.is_empty());
}

/// Round trip, second order larger: the smaller resting amount trades and
/// the buyer's residual comes to rest on the other side.
#[test]
fn test_round_trip_second_order_larger() {
    let mut engine = MatchingEngine::new();
    engine
        .process(Order { price: 10, amount: 3, side: Side::Sell, signer: "ALICE".to_string() })
        .unwrap();
    let receipt = engine
        .process(Order { price: 10, amount: 5, side: Side::Buy, signer: "BOB".to_string() })
        .unwrap();

    assert_eq!(
        receipt.matches,
        vec![PartialOrder {
            price: 10,
            amount: 3,
            remaining: 0,
            side: Side::Sell,
            signer: "ALICE".to_string(),
            ordinal: 1
        }]
    );
    assert!(engine.asks.is_empty());
    assert_eq!(engine.bids.len(), 1);
}

/// A sell walks the eligible bid levels in ascending price order, and a buy
/// walks the eligible ask levels cheapest first.
#[test]
fn test_cross_level_walk_is_ascending() {
    let mut engine = MatchingEngine::new();
    engine
        .process(Order { price: 10, amount: 1, side: Side::Buy, signer: "BOB".to_string() })
        .unwrap();
    engine
        .process(Order { price: 12, amount: 1, side: Side::Buy, signer: "CHARLIE".to_string() })
        .unwrap();

    let receipt = engine
        .process(Order { price: 10, amount: 2, side: Side::Sell, signer: "ALICE".to_string() })
        .unwrap();

    assert_eq!(
        receipt.matches,
        vec![
            PartialOrder {
                price: 10,
                amount: 1,
                remaining: 0,
                side: Side::Buy,
                signer: "BOB".to_string(),
                ordinal: 1
            },
            PartialOrder {
                price: 12,
                amount: 1,
                remaining: 0,
                side: Side::Buy,
                signer: "CHARLIE".to_string(),
                ordinal: 2
            },
        ]
    );
    assert!(engine.bids.is_empty());
    assert!(engine.asks.is_empty());
}

/// The sum of all balances always equals journalled deposits minus
/// journalled withdrawals, across deposits, withdrawals, transfers and
/// settled orders.
#[test]
fn test_balances_match_journal_after_mixed_operations() {
    let mut platform = TradingPlatform::new();
    platform.deposit("ALICE", 100).unwrap();
    platform.deposit("BOB", 50).unwrap();
    platform.withdraw("ALICE", 30).unwrap();
    platform.send("ALICE", "BOB", 20).unwrap();
    platform
        .order(Order { price: 2, amount: 5, side: Side::Sell, signer: "ALICE".to_string() })
        .unwrap();
    platform
        .order(Order { price: 2, amount: 5, side: Side::Buy, signer: "BOB".to_string() })
        .unwrap();

    let mut deposited: u64 = 0;
    let mut withdrawn: u64 = 0;
    for tx in &platform.transactions {
        match tx {
            Tx::Deposit { account: _, amount } => deposited += amount,
            Tx::Withdraw { account: _, amount } => withdrawn += amount,
        }
    }
    let balances = platform.balance_of("ALICE").unwrap() + platform.balance_of("BOB").unwrap();
    assert_eq!(balances, deposited - withdrawn);
    assert_eq!(platform.balance_of("ALICE"), Ok(60));
    assert_eq!(platform.balance_of("BOB"), Ok(60));
}

/// An order from a signer who cannot cover `amount * price` is rejected
/// before the engine is touched.
#[test]
fn test_order_underfunded_rejected() {
    let mut platform = TradingPlatform::new();
    platform.deposit("ALICE", 5).unwrap();

    let result = platform.order(Order {
        price: 10,
        amount: 1,
        side: Side::Buy,
        signer: "ALICE".to_string(),
    });
    assert_eq!(result, Err(AccountError::UnderFunded("ALICE".to_string())));
    assert!(platform.engine.bids.is_empty());
    assert!(platform.engine.asks.is_empty());
    assert_eq!(platform.balance_of("ALICE"), Ok(5));
    assert_eq!(platform.transactions.len(), 1);
}

/// A transfer whose deposit would overflow the recipient fails after the
/// withdrawal has been committed, and journals nothing: a known limitation.
#[test]
fn test_send_overflow_commits_withdrawal() {
    let mut platform = TradingPlatform::new();
    platform.deposit("ALICE", 50).unwrap();
    platform.deposit("BOB", u64::MAX).unwrap();

    let result = platform.send("ALICE", "BOB", 10);
    assert_eq!(result, Err(AccountError::OverFunded("BOB".to_string(), 10)));
    assert_eq!(platform.balance_of("ALICE"), Ok(40));
    assert_eq!(platform.balance_of("BOB"), Ok(u64::MAX));
    assert_eq!(platform.transactions.len(), 2);
}

/// A zero balance is representable and distinct from an absent account.
#[test]
fn test_deposit_zero_creates_account() {
    let mut platform = TradingPlatform::new();
    platform.deposit("ZED", 0).unwrap();

    assert_eq!(platform.balance_of("ZED"), Ok(0));
    assert_eq!(
        platform.balance_of("NOBODY"),
        Err(AccountError::NotFound("NOBODY".to_string()))
    );
}

/// The order book view flattens both sides: asks first, then bids.
#[test]
fn test_orderbook_flattens_both_sides() {
    let mut platform = TradingPlatform::new();
    platform.deposit("ALICE", 100).unwrap();
    platform.deposit("BOB", 100).unwrap();

    platform
        .order(Order { price: 12, amount: 3, side: Side::Sell, signer: "ALICE".to_string() })
        .unwrap();
    platform
        .order(Order { price: 8, amount: 2, side: Side::Buy, signer: "BOB".to_string() })
        .unwrap();

    let book = platform.orderbook();
    assert_eq!(
        book,
        vec![
            PartialOrder {
                price: 12,
                amount: 3,
                remaining: 3,
                side: Side::Sell,
                signer: "ALICE".to_string(),
                ordinal: 1
            },
            PartialOrder {
                price: 8,
                amount: 2,
                remaining: 2,
                side: Side::Buy,
                signer: "BOB".to_string(),
                ordinal: 2
            },
        ]
    );
}

/// A receipt whose records all report exhausted counterparties never sums
/// to more than the submitted amount.
#[test]
fn test_receipt_amounts_capped_by_submitted_amount() {
    let mut engine = MatchingEngine::new();
    engine
        .process(Order { price: 9, amount: 2, side: Side::Sell, signer: "ALICE".to_string() })
        .unwrap();
    engine
        .process(Order { price: 10, amount: 1, side: Side::Sell, signer: "CHARLIE".to_string() })
        .unwrap();

    let receipt = engine
        .process(Order { price: 10, amount: 4, side: Side::Buy, signer: "BOB".to_string() })
        .unwrap();

    let total: u64 = receipt.matches.iter().map(|m| m.amount).sum();
    assert!(receipt.matches.iter().all(|m| m.remaining == 0));
    assert!(total <= 4);
    assert_eq!(total, 3);
    // The unmatched single unit rests on the bid side.
    assert_eq!(engine.bids.len(), 1);
    assert!(engine.asks.is_empty());
}

/// `take_from` splits a resting order: the piece carries the taken amount,
/// the order keeps the rest.
#[test]
fn test_take_from_splits() {
    let mut pos = PartialOrder {
        price: 10,
        amount: 5,
        remaining: 5,
        side: Side::Sell,
        signer: "ALICE".to_string(),
        ordinal: 1,
    };
    let piece = PartialOrder::take_from(&mut pos, 2);
    assert_eq!(piece.amount, 2);
    assert_eq!(piece.remaining, 3);
    assert_eq!(pos.remaining, 3);
    assert_eq!(pos.amount, 5);
}

/// `into_partial_order` carries every order field over.
#[test]
fn test_into_partial_order() {
    let order = Order { price: 7, amount: 4, side: Side::Buy, signer: "DANA".to_string() };
    let po = order.into_partial_order(9, 4);
    assert_eq!(
        po,
        PartialOrder {
            price: 7,
            amount: 4,
            remaining: 4,
            side: Side::Buy,
            signer: "DANA".to_string(),
            ordinal: 9
        }
    );
}
