//! The errors that the exchange reports.

use vstd::prelude::*;

verus! {

/// Why an operation was refused. A refused operation changes nothing.
#[derive(Debug, Clone, Copy, PartialEq, Eq, Structural)]
pub enum ExchangeError {
    /// The account does not hold what the operation needs.
    InsufficientBalance,
    /// No record exists for the account.
    AccountUnknown,
    /// The book holds no order with that id, side and price.
    OrderNotFound,
    /// No market is registered for the pair.
    UnknownMarket,
    /// Price times quantity does not fit in 64 bits.
    Overflow,
}

impl ExchangeError {
    /// A short description of the error.
    pub fn message(&self) -> (m: &'static str)
        ensures
            m@ == match *self {
                ExchangeError::InsufficientBalance => "Insufficient balance"@,
                ExchangeError::AccountUnknown => "Account not found"@,
                ExchangeError::OrderNotFound => "Order not found"@,
                ExchangeError::UnknownMarket => "Market not found"@,
                ExchangeError::Overflow => "Notional overflow"@,
            },
    {
        match self {
            ExchangeError::InsufficientBalance => "Insufficient balance",
            ExchangeError::AccountUnknown => "Account not found",
            ExchangeError::OrderNotFound => "Order not found",
            ExchangeError::UnknownMarket => "Market not found",
            ExchangeError::Overflow => "Notional overflow",
        }
    }
}

} // verus!
