//! Transactions.

pub mod tx;
