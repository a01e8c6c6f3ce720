//! A limit order book matching engine with atomic settlement.
//!
//! - [`order`]: orders and the scalar values they are made of.
//! - [`orderbook`]: the two-sided book of resting orders.
//! - [`matching`]: the matching engine, with price-time priority.
//! - [`market`]: one pair bound to one book and one engine.
//! - [`account`], [`account_manager`]: the ledger of balances.
//! - [`exchange`]: the registry of markets, with reservation, settlement
//!   and refund.
//! - [`conservation`]: the proof that no asset is made or lost.

pub mod account;
pub mod account_manager;
pub mod asset;
pub mod conservation;
pub mod error;
pub mod exchange;
pub mod lookup;
pub mod market;
pub mod matching;
pub mod order;
pub mod orderbook;
