#![allow(non_snake_case)]

use octopus::matching::MatchingEngine;
use octopus::types::{Order, PartialOrder, Side};

#[test]
fn test_MatchingEngine_process_partially_match_order() {
    let mut matching_engine = MatchingEngine::new();

    let alice_receipt = matching_engine
        .process(Order {
            price: 10,
            amount: 1,
            side: Side::Sell,
            signer: "ALICE".to_string(),
        })
        .unwrap();
    assert_eq!(alice_receipt.matches, vec![]);
    assert_eq!(alice_receipt.ordinal, 1);

    let bob_receipt = matching_engine
        .process(Order {
            price: 10,
            amount: 2,
            side: Side::Buy,
            signer: "BOB".to_string(),
        })
        .unwrap();

    assert_eq!(
        bob_receipt.matches,
        vec![PartialOrder {
            price: 10,
            amount: 1,
            remaining: 0,
            side: Side::Sell,
            signer: "ALICE".to_string(),
            ordinal: 1
        }]
    );

    // Bob's order was only partially filled
    assert_eq!(matching_engine.asks.len(), 0);
    assert_eq!(matching_engine.bids.len(), 1);
}

#[test]
fn test_MatchingEngine_process_fully_match_order() {
    let mut matching_engine = MatchingEngine::new();

    let alice_receipt = matching_engine
        .process(Order {
            price: 10,
            amount: 2,
            side: Side::Sell,
            signer: "ALICE".to_string(),
        })
        .unwrap();
    assert_eq!(alice_receipt.matches, vec![]);
    assert_eq!(alice_receipt.ordinal, 1);

    let bob_receipt = matching_engine
        .process(Order {
            price: 10,
            amount: 2,
            side: Side::Buy,
            signer: "BOB".to_string(),
        })
        .unwrap();

    assert_eq!(
        bob_receipt.matches,
        vec![PartialOrder {
            price: 10,
            amount: 2,
            remaining: 0,
            side: Side::Sell,
            signer: "ALICE".to_string(),
            ordinal: 1
        }]
    );

    // A fully matched order doesn't remain in the book
    assert!(matching_engine.asks.is_empty());
    assert!(matching_engine.bids.is_empty());
}

#[test]
fn test_MatchingEngine_process_fully_match_order_overfill() {
    let mut matching_engine = MatchingEngine::new();

    let alice_receipt = matching_engine
        .process(Order {
            price: 10,
            amount: 3,
            side: Side::Sell,
            signer: "ALICE".to_string(),
        })
        .unwrap();
    assert_eq!(alice_receipt.matches, vec![]);
    assert_eq!(alice_receipt.ordinal, 1);

    let bob_receipt = matching_engine
        .process(Order {
            price: 10,
            amount: 1,
            side: Side::Buy,
            signer: "BOB".to_string(),
        })
        .unwrap();

    assert_eq!(
        bob_receipt.matches,
        vec![PartialOrder {
            price: 10,
            amount: 3,
            remaining: 2,
            side: Side::Sell,
            signer: "ALICE".to_string(),
            ordinal: 1
        }]
    );

    // A sell order with an updated remaining is added to the book
    assert_eq!(matching_engine.asks.len(), 1);
    assert!(matching_engine.bids.is_empty());
}

#[test]
fn test_MatchingEngine_process_fully_match_order_multi_match() {
    let mut matching_engine = MatchingEngine::new();

    let alice_receipt = matching_engine
        .process(Order {
            price: 10,
            amount: 1,
            side: Side::Sell,
            signer: "ALICE".to_string(),
        })
        .unwrap();
    assert_eq!(alice_receipt.matches, vec![]);
    assert_eq!(alice_receipt.ordinal, 1);

    let charlie_receipt = matching_engine
        .process(Order {
            price: 10,
            amount: 1,
            side: Side::Sell,
            signer: "CHARLIE".to_string(),
        })
        .unwrap();
    assert_eq!(charlie_receipt.matches, vec![]);
    assert_eq!(charlie_receipt.ordinal, 2);

    let bob_receipt = matching_engine
        .process(Order {
            price: 10,
            amount: 2,
            side: Side::Buy,
            signer: "BOB".to_string(),
        })
        .unwrap();

    assert_eq!(
        bob_receipt.matches,
        vec![
            PartialOrder {
                price: 10,
                amount: 1,
                remaining: 0,
                side: Side::Sell,
                signer: "ALICE".to_string(),
                ordinal: 1
            },
            PartialOrder {
                price: 10,
                amount: 1,
                remaining: 0,
                side: Side::Sell,
                signer: "CHARLIE".to_string(),
                ordinal: 2
            }
        ]
    );
    // A fully matched order doesn't remain in the book
    assert!(matching_engine.asks.is_empty());
    assert!(matching_engine.bids.is_empty());
}

#[test]
fn test_MatchingEngine_process_fully_match_order_no_self_match() {
    let mut matching_engine = MatchingEngine::new();

    let alice_receipt = matching_engine
        .process(Order {
            price: 10,
            amount: 1,
            side: Side::Sell,
            signer: "ALICE".to_string(),
        })
        .unwrap();
    assert_eq!(alice_receipt.matches, vec![]);
    assert_eq!(alice_receipt.ordinal, 1);

    let charlie_receipt = matching_engine
        .process(Order {
            price: 10,
            amount: 1,
            side: Side::Sell,
            signer: "CHARLIE".to_string(),
        })
        .unwrap();
    assert_eq!(charlie_receipt.matches, vec![]);
    assert_eq!(charlie_receipt.ordinal, 2);

    let alice_receipt = matching_engine
        .process(Order {
            price: 10,
            amount: 2,
            side: Side::Buy,
            signer: "ALICE".to_string(),
        })
        .unwrap();

    assert_eq!(
        alice_receipt.matches,
        vec![PartialOrder {
            price: 10,
            amount: 1,
            remaining: 0,
            side: Side::Sell,
            signer: "CHARLIE".to_string(),
            ordinal: 2
        }]
    );
    // A fully matched order doesn't remain in the book
    assert_eq!(matching_engine.asks.len(), 1);
    assert_eq!(matching_engine.bids.len(), 1);
}

#[test]
fn test_MatchingEngine_process_no_match() {
    let mut matching_engine = MatchingEngine::new();

    let alice_receipt = matching_engine
        .process(Order {
            price: 10,
            amount: 2,
            side: Side::Sell,
            signer: "ALICE".to_string(),
        })
        .unwrap();
    assert_eq!(alice_receipt.matches, vec![]);
    assert_eq!(alice_receipt.ordinal, 1);

    let bob_receipt = matching_engine
        .process(Order {
            price: 11,
            amount: 2,
            side: Side::Sell,
            signer: "BOB".to_string(),
        })
        .unwrap();

    assert_eq!(bob_receipt.matches, vec![]);
    assert_eq!(matching_engine.asks.len(), 2);
}

#[test]
fn test_MatchingEngine_process_increment_ordinal_matching_engine() {
    let mut matching_engine = MatchingEngine::new();

    assert_eq!(matching_engine.ordinal, 0);

    let receipt = matching_engine
        .process(Order {
            price: 10,
            amount: 1,
            side: Side::Buy,
            signer: "ALICE".to_string(),
        })
        .unwrap();
    assert_eq!(receipt.ordinal, matching_engine.ordinal);

    let receipt = matching_engine
        .process(Order {
            price: 10,
            amount: 1,
            side: Side::Buy,
            signer: "BOB".to_string(),
        })
        .unwrap();
    assert_eq!(receipt.ordinal, matching_engine.ordinal);

    let receipt = matching_engine
        .process(Order {
            price: 10,
            amount: 1,
            side: Side::Buy,
            signer: "CHARLIE".to_string(),
        })
        .unwrap();
    assert_eq!(receipt.ordinal, matching_engine.ordinal);
    assert_eq!(matching_engine.ordinal, 3);
}

#[test]
fn matching_test_MatchingEngine_process_partially_match_order() {
    let mut matching_engine = MatchingEngine::new();

    let alice_receipt = matching_engine
        .process(Order {
            price: 10,
            amount: 1,
            side: Side::Sell,
            signer: "ALICE".to_string(),
        })
        .unwrap();
    assert_eq!(alice_receipt.matches, vec![]);
    assert_eq!(alice_receipt.ordinal, 1);

    let bob_receipt = matching_engine
        .process(Order {
            price: 10,
            amount: 2,
            side: Side::Buy,
            signer: "BOB".to_string(),
        })
        .unwrap();

    assert_eq!(
        bob_receipt.matches,
        vec![PartialOrder {
            price: 10,
            amount: 1,
            remaining: 0,
            side: Side::Sell,
            signer: "ALICE".to_string(),
            ordinal: 1
        }]
    );

    // Bob's order was only partially filled
    assert_eq!(matching_engine.asks.len(), 0);
    assert_eq!(matching_engine.bids.len(), 1);
}

#[test]
fn matching_test_MatchingEngine_process_fully_match_order() {
    let mut matching_engine = MatchingEngine::new();

    let alice_receipt = matching_engine
        .process(Order {
            price: 10,
            amount: 2,
            side: Side::Sell,
            signer: "ALICE".to_string(),
        })
        .unwrap();
    assert_eq!(alice_receipt.matches, vec![]);
    assert_eq!(alice_receipt.ordinal, 1);

    let bob_receipt = matching_engine
        .process(Order {
            price: 10,
            amount: 2,
            side: Side::Buy,
            signer: "BOB".to_string(),
        })
        .unwrap();

    assert_eq!(
        bob_receipt.matches,
        vec![PartialOrder {
            price: 10,
            amount: 2,
            remaining: 0,
            side: Side::Sell,
            signer: "ALICE".to_string(),
            ordinal: 1
        }]
    );

    // A fully matched order doesn't remain in the book
    assert!(matching_engine.asks.is_empty());
    assert!(matching_engine.bids.is_empty());
}

#[test]
fn matching_test_MatchingEngine_process_fully_match_order_multi_match() {
    let mut matching_engine = MatchingEngine::new();

    let alice_receipt = matching_engine
        .process(Order {
            price: 10,
            amount: 1,
            side: Side::Sell,
            signer: "ALICE".to_string(),
        })
        .unwrap();
    assert_eq!(alice_receipt.matches, vec![]);
    assert_eq!(alice_receipt.ordinal, 1);

    let charlie_receipt = matching_engine
        .process(Order {
            price: 10,
            amount: 1,
            side: Side::Sell,
            signer: "CHARLIE".to_string(),
        })
        .unwrap();
    assert_eq!(charlie_receipt.matches, vec![]);
    assert_eq!(charlie_receipt.ordinal, 2);

    let bob_receipt = matching_engine
        .process(Order {
            price: 10,
            amount: 2,
            side: Side::Buy,
            signer: "BOB".to_string(),
        })
        .unwrap();

    assert_eq!(
        bob_receipt.matches,
        vec![
            PartialOrder {
                price: 10,
                amount: 1,
                remaining: 0,
                side: Side::Sell,
                signer: "ALICE".to_string(),
                ordinal: 1
            },
            PartialOrder {
                price: 10,
                amount: 1,
                remaining: 0,
                side: Side::Sell,
                signer: "CHARLIE".to_string(),
                ordinal: 2
            }
        ]
    );
    // A fully matched order doesn't remain in the book
    assert!(matching_engine.asks.is_empty());
    assert!(matching_engine.bids.is_empty());
}

#[test]
fn matching_test_MatchingEngine_process_fully_match_order_no_self_match() {
    let mut matching_engine = MatchingEngine::new();

    let alice_receipt = matching_engine
        .process(Order {
            price: 10,
            amount: 1,
            side: Side::Sell,
            signer: "ALICE".to_string(),
        })
        .unwrap();
    assert_eq!(alice_receipt.matches, vec![]);
    assert_eq!(alice_receipt.ordinal, 1);

    let charlie_receipt = matching_engine
        .process(Order {
            price: 10,
            amount: 1,
            side: Side::Sell,
            signer: "CHARLIE".to_string(),
        })
        .unwrap();
    assert_eq!(charlie_receipt.matches, vec![]);
    assert_eq!(charlie_receipt.ordinal, 2);

    let alice_receipt = matching_engine
        .process(Order {
            price: 10,
            amount: 2,
            side: Side::Buy,
            signer: "ALICE".to_string(),
        })
        .unwrap();

    assert_eq!(
        alice_receipt.matches,
        vec![PartialOrder {
            price: 10,
            amount: 1,
            remaining: 0,
            side: Side::Sell,
            signer: "CHARLIE".to_string(),
            ordinal: 2
        }]
    );
    // A fully matched order doesn't remain in the book
    assert_eq!(matching_engine.asks.len(), 1);
    assert_eq!(matching_engine.bids.len(), 1);
}

#[test]
fn matching_test_MatchingEngine_process_no_match() {
    let mut matching_engine = MatchingEngine::new();

    let alice_receipt = matching_engine
        .process(Order {
            price: 10,
            amount: 2,
            side: Side::Sell,
            signer: "ALICE".to_string(),
        })
        .unwrap();
    assert_eq!(alice_receipt.matches, vec![]);
    assert_eq!(alice_receipt.ordinal, 1);

    let bob_receipt = matching_engine
        .process(Order {
            price: 11,
            amount: 2,
            side: Side::Sell,
            signer: "BOB".to_string(),
        })
        .unwrap();

    assert_eq!(bob_receipt.matches, vec![]);
    assert_eq!(matching_engine.asks.len(), 2);
}

#[test]
fn matching_test_MatchingEngine_process_increment_ordinal_matching_engine() {
    let mut matching_engine = MatchingEngine::new();
    assert_eq!(matching_engine.ordinal, 0);
    let receipt = matching_engine
        .process(Order {
            price: 10,
            amount: 1,
            side: Side::Buy,
            signer: "ALICE".to_string(),
        })
        .unwrap();
    assert_eq!(receipt.ordinal, matching_engine.ordinal);

    let receipt = matching_engine
        .process(Order {
            price: 10,
            amount: 1,
            side: Side::Buy,
            signer: "BOB".to_string(),
        })
        .unwrap();
    assert_eq!(receipt.ordinal, matching_engine.ordinal);

    let receipt = matching_engine
        .process(Order {
            price: 10,
            amount: 1,
            side: Side::Buy,
            signer: "CHARLIE".to_string(),
        })
        .unwrap();
    assert_eq!(receipt.ordinal, matching_engine.ordinal);
    assert_eq!(matching_engine.ordinal, 3);
}
