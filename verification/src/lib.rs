//! An in-memory trading platform: account balances, a two-sided limit order
//! book matched under price-time priority, and a settlement layer that keeps
//! balances and an append-only transaction journal in step with every trade.

pub mod accounting;
pub mod book;
pub mod errors;
pub mod matching;
pub mod trading_platform;
pub mod tx;
pub mod types;
